//! Turning equations and solutions into readable text.
use vstd::prelude::*;
use crate::assignment::{Assignment, lookup};
use crate::number::{Rational, spec_render};
use crate::text::{push_str, starts_with_char};
use crate::types::{Equation, EquationView, Expr, ExprView, Operator};

verus! {

// ---------------------------------------------------------------------------
// Expr → readable string
// ---------------------------------------------------------------------------

/// The ASCII symbol of an operator.
pub open spec fn spec_op_symbol(op: Operator) -> Seq<char> {
    match op {
        Operator::Add => "+"@,
        Operator::Sub => "-"@,
        Operator::Mul => "*"@,
        Operator::Div => "/"@,
    }
}

/// The algebraic text of an expression: numbers in decimal, variables by
/// name, and an operation as `left op right`, where an operand that is
/// itself an operation is put in parentheses.
pub open spec fn spec_expr_string(e: ExprView) -> Seq<char>
    decreases e,
{
    match e {
        ExprView::Number(n) => spec_render(n),
        ExprView::Variable(name) => name,
        ExprView::BinaryOp { op, left, right } => {
            let l = if *left is BinaryOp {
                "("@ + spec_expr_string(*left) + ")"@
            } else {
                spec_expr_string(*left)
            };
            let r = if *right is BinaryOp {
                "("@ + spec_expr_string(*right) + ")"@
            } else {
                spec_expr_string(*right)
            };
            l + " "@ + spec_op_symbol(op) + " "@ + r
        },
    }
}

/// The text of an equation: `lhs = rhs`.
pub open spec fn spec_equation_string(eq: EquationView) -> Seq<char> {
    spec_expr_string(eq.lhs) + " = "@ + spec_expr_string(eq.rhs)
}

/// Render the operator as an ASCII symbol.
pub fn op_symbol(op: &Operator) -> (s: &'static str)
    ensures
        s@ == spec_op_symbol(*op),
{
    match op {
        Operator::Add => "+",
        Operator::Sub => "-",
        Operator::Mul => "*",
        Operator::Div => "/",
    }
}

/// Appends the text of an operand, in parentheses when it is an operation.
fn push_operand(s: &mut String, expr: &Expr)
    ensures
        final(s)@ == old(s)@ + (if expr.deep_view() is BinaryOp {
            "("@ + spec_expr_string(expr.deep_view()) + ")"@
        } else {
            spec_expr_string(expr.deep_view())
        }),
    decreases expr, 1nat,
{
    match expr {
        Expr::BinaryOp { .. } => {
            push_str(s, "(");
            push_expr(s, expr);
            push_str(s, ")");
        },
        _ => {
            push_expr(s, expr);
        },
    }
}

/// Appends the text of an expression.
fn push_expr(s: &mut String, expr: &Expr)
    ensures
        final(s)@ == old(s)@ + spec_expr_string(expr.deep_view()),
    decreases expr, 0nat,
{
    match expr {
        Expr::Number(n) => {
            n.push_rendered(s);
        },
        Expr::Variable(name) => {
            push_str(s, name.as_str());
        },
        Expr::BinaryOp { op, left, right } => {
            push_operand(s, left);
            push_str(s, " ");
            push_str(s, op_symbol(op));
            push_str(s, " ");
            push_operand(s, right);
        },
    }
}

/// Render an expression as a human-readable algebraic string.
///
/// Examples:
///   a number 5                     →  "5"
///   the variable john              →  "john"
///   x plus 3                       →  "x + 3"
///   (x plus 3) times y             →  "(x + 3) * y"   ← parens for nested
pub fn expr_to_string(expr: &Expr) -> (r: String)
    ensures
        r@ == spec_expr_string(expr.deep_view()),
{
    let mut s = String::new();
    push_expr(&mut s, expr);
    assert(s@ =~= spec_expr_string(expr.deep_view()));
    s
}

/// Render a single equation as "lhs = rhs".
pub fn equation_to_string(eq: &Equation) -> (r: String)
    ensures
        r@ == spec_equation_string(eq.deep_view()),
{
    let mut s = String::new();
    push_expr(&mut s, &eq.lhs);
    push_str(&mut s, " = ");
    push_expr(&mut s, &eq.rhs);
    assert(s@ =~= spec_equation_string(eq.deep_view()));
    s
}

// ---------------------------------------------------------------------------
// The full output
// ---------------------------------------------------------------------------

/// Whether an expression is a temporary variable (its name starts with `_`).
pub open spec fn is_temp(e: ExprView) -> bool {
    e matches ExprView::Variable(name) && name.len() > 0 && name[0] == '_'
}

/// Whether an equation is shown to the student: neither side is a temporary.
pub open spec fn is_shown(eq: EquationView) -> bool {
    !is_temp(eq.lhs) && !is_temp(eq.rhs)
}

/// The text of each shown equation, in order.
pub open spec fn spec_equation_lines(eqs: Seq<EquationView>) -> Seq<Seq<char>>
    decreases eqs.len(),
{
    if eqs.len() == 0 {
        seq![]
    } else {
        let r = spec_equation_lines(eqs.drop_last());
        if is_shown(eqs.last()) {
            r.push(spec_equation_string(eqs.last()))
        } else {
            r
        }
    }
}

/// Whether a line is about a temporary: it starts with `_`.
pub open spec fn is_temp_line(line: Seq<char>) -> bool {
    line.len() > 0 && line[0] == '_'
}

/// The solve steps that are neither already among the equation lines nor
/// about a temporary, in order.
pub open spec fn spec_extra_steps(steps: Seq<Seq<char>>, eq_lines: Seq<Seq<char>>) -> Seq<Seq<char>>
    decreases steps.len(),
{
    if steps.len() == 0 {
        seq![]
    } else {
        let r = spec_extra_steps(steps.drop_last(), eq_lines);
        if eq_lines.contains(steps.last()) || is_temp_line(steps.last()) {
            r
        } else {
            r.push(steps.last())
        }
    }
}

/// The text `name = value`.
pub open spec fn binding_text(name: Seq<char>, value: Rational) -> Seq<char> {
    name + " = "@ + spec_render(value)
}

/// One line per bound variable in name order, temporaries left out.
pub open spec fn spec_all_answers(values: Seq<(Seq<char>, Rational)>) -> Seq<Seq<char>>
    decreases values.len(),
{
    if values.len() == 0 {
        seq![]
    } else {
        let r = spec_all_answers(values.drop_last());
        let (name, v) = values.last();
        if name.len() > 0 && name[0] == '_' {
            r
        } else {
            r.push(binding_text(name, v))
        }
    }
}

/// One line per asked variable that has a value, in the order asked.
pub open spec fn spec_asked_answers(values: Seq<(Seq<char>, Rational)>, asked: Seq<Seq<char>>) -> Seq<Seq<char>>
    decreases asked.len(),
{
    if asked.len() == 0 {
        seq![]
    } else {
        let r = spec_asked_answers(values, asked.drop_last());
        match lookup(values, asked.last()) {
            Some(v) => r.push(binding_text(asked.last(), v)),
            None => r,
        }
    }
}

/// The answer lines: every variable when none was asked about, else the
/// asked ones.
pub open spec fn spec_answer_lines(values: Seq<(Seq<char>, Rational)>, asked: Seq<Seq<char>>) -> Seq<Seq<char>> {
    if asked.len() == 0 {
        spec_all_answers(values)
    } else {
        spec_asked_answers(values, asked)
    }
}

/// Each line with two spaces in front.
pub open spec fn indented(lines: Seq<Seq<char>>) -> Seq<Seq<char>> {
    lines.map_values(|l: Seq<char>| "  "@ + l)
}

/// `Answer: a` for a single answer, else `Answer:` over the indented answers.
pub open spec fn answer_section(answers: Seq<Seq<char>>) -> Seq<Seq<char>> {
    if answers.len() == 1 {
        seq!["Answer: "@ + answers[0]]
    } else {
        seq!["Answer:"@] + indented(answers)
    }
}

/// All lines of the printed output.
pub open spec fn spec_output_lines(
    eqs: Seq<EquationView>,
    steps: Seq<Seq<char>>,
    values: Seq<(Seq<char>, Rational)>,
    asked: Seq<Seq<char>>,
) -> Seq<Seq<char>> {
    let eq_lines = spec_equation_lines(eqs);
    seq!["Expressions:"@] + indented(eq_lines) + indented(spec_extra_steps(steps, eq_lines)) + seq![""@]
        + answer_section(spec_answer_lines(values, asked))
}

/// Lines joined with newlines.
pub open spec fn join_lines(lines: Seq<Seq<char>>) -> Seq<char>
    decreases lines.len(),
{
    if lines.len() == 0 {
        seq![]
    } else if lines.len() == 1 {
        lines[0]
    } else {
        join_lines(lines.drop_last()) + "\n"@ + lines.last()
    }
}

/// The formatted output returned by `format_output`.
/// Keeps display string and raw parts separate so tests can inspect them.
#[derive(Debug, Clone)]
pub struct FormattedOutput {
    /// The complete printable string (what gets shown to the user).
    pub display: String,
    /// The equation lines shown in the "Expressions:" section.
    pub equation_lines: Vec<String>,
    /// The answer lines shown in the "Answer:" section.
    pub answer_lines: Vec<String>,
}

/// Returns true if the expression is a temporary variable (_t0, _t1, …).
fn is_temp_var(expr: &Expr) -> (b: bool)
    ensures
        b == is_temp(expr.deep_view()),
{
    match expr {
        Expr::Variable(name) => starts_with_char(name.as_str(), '_'),
        _ => false,
    }
}

fn shown_equation_lines(equations: &[Equation]) -> (r: Vec<String>)
    ensures
        r.deep_view() == spec_equation_lines(equations.deep_view()),
{
    let ghost es = equations.deep_view();
    let mut out: Vec<String> = Vec::new();
    let mut i: usize = 0;
    assert(out.deep_view() =~= spec_equation_lines(es.take(0)));
    while i < equations.len()
        invariant
            i <= equations@.len(),
            es == equations.deep_view(),
            out.deep_view() == spec_equation_lines(es.take(i as int)),
        decreases equations@.len() - i,
    {
        assert(es.take(i + 1).drop_last() =~= es.take(i as int));
        assert(es.take(i + 1).last() == equations@[i as int].deep_view());
        if !is_temp_var(&equations[i].lhs) && !is_temp_var(&equations[i].rhs) {
            let line = equation_to_string(&equations[i]);
            let ghost o = out.deep_view();
            out.push(line);
            assert(out.deep_view() =~= o.push(spec_equation_string(es[i as int])));
        }
        i = i + 1;
    }
    assert(es.take(i as int) =~= es);
    out
}

fn contains_line(lines: &Vec<String>, line: &str) -> (b: bool)
    ensures
        b == lines.deep_view().contains(line@),
{
    let mut i: usize = 0;
    while i < lines.len()
        invariant
            i <= lines.len(),
            forall|k: int| 0 <= k < i ==> lines.deep_view()[k] != line@,
        decreases lines.len() - i,
    {
        if crate::text::str_equals(lines[i].as_str(), line) {
            assert(lines.deep_view()[i as int] == line@);
            return true;
        }
        i = i + 1;
    }
    false
}

fn extra_steps(steps: &[String], eq_lines: &Vec<String>) -> (r: Vec<String>)
    ensures
        r.deep_view() == spec_extra_steps(steps.deep_view(), eq_lines.deep_view()),
{
    let ghost ss = steps.deep_view();
    let mut out: Vec<String> = Vec::new();
    let mut i: usize = 0;
    assert(out.deep_view() =~= spec_extra_steps(ss.take(0), eq_lines.deep_view()));
    while i < steps.len()
        invariant
            i <= steps@.len(),
            ss == steps.deep_view(),
            out.deep_view() == spec_extra_steps(ss.take(i as int), eq_lines.deep_view()),
        decreases steps@.len() - i,
    {
        assert(ss.take(i + 1).drop_last() =~= ss.take(i as int));
        assert(ss.take(i + 1).last() == steps@[i as int]@);
        if !contains_line(eq_lines, steps[i].as_str()) && !starts_with_char(steps[i].as_str(), '_') {
            let ghost o = out.deep_view();
            out.push(steps[i].clone());
            assert(out.deep_view() =~= o.push(ss[i as int]));
        }
        i = i + 1;
    }
    assert(ss.take(i as int) =~= ss);
    out
}

fn binding_line(name: &str, value: Rational) -> (r: String)
    ensures
        r@ == binding_text(name@, value),
{
    let mut s = String::new();
    push_str(&mut s, name);
    push_str(&mut s, " = ");
    value.push_rendered(&mut s);
    assert(s@ =~= binding_text(name@, value));
    s
}

fn all_answers(values: &Assignment) -> (r: Vec<String>)
    ensures
        r.deep_view() == spec_all_answers(values@),
{
    let ghost vs = values@;
    let mut out: Vec<String> = Vec::new();
    let mut i: usize = 0;
    assert(out.deep_view() =~= spec_all_answers(vs.take(0)));
    while i < values.len()
        invariant
            i <= vs.len(),
            vs == values@,
            out.deep_view() == spec_all_answers(vs.take(i as int)),
        decreases vs.len() - i,
    {
        assert(vs.take(i + 1).drop_last() =~= vs.take(i as int));
        assert(vs.take(i + 1).last() == vs[i as int]);
        let (name, value) = values.entry(i);
        if !starts_with_char(name.as_str(), '_') {
            let line = binding_line(name.as_str(), value);
            let ghost o = out.deep_view();
            out.push(line);
            assert(out.deep_view() =~= o.push(binding_text(vs[i as int].0, vs[i as int].1)));
        }
        i = i + 1;
    }
    assert(vs.take(i as int) =~= vs);
    out
}

fn asked_answers(values: &Assignment, question_vars: &[String]) -> (r: Vec<String>)
    ensures
        r.deep_view() == spec_asked_answers(values@, question_vars.deep_view()),
{
    let ghost qs = question_vars.deep_view();
    let mut out: Vec<String> = Vec::new();
    let mut i: usize = 0;
    assert(out.deep_view() =~= spec_asked_answers(values@, qs.take(0)));
    while i < question_vars.len()
        invariant
            i <= question_vars@.len(),
            qs == question_vars.deep_view(),
            out.deep_view() == spec_asked_answers(values@, qs.take(i as int)),
        decreases question_vars@.len() - i,
    {
        assert(qs.take(i + 1).drop_last() =~= qs.take(i as int));
        assert(qs.take(i + 1).last() == question_vars@[i as int]@);
        match values.get(question_vars[i].as_str()) {
            Some(v) => {
                let line = binding_line(question_vars[i].as_str(), v);
                let ghost o = out.deep_view();
                out.push(line);
                assert(out.deep_view() =~= o.push(binding_text(qs[i as int], v)));
            },
            None => {},
        }
        i = i + 1;
    }
    assert(qs.take(i as int) =~= qs);
    out
}

proof fn lemma_join_push(lines: Seq<Seq<char>>, x: Seq<char>)
    requires
        lines.len() >= 1,
    ensures
        join_lines(lines.push(x)) == join_lines(lines) + "\n"@ + x,
{
    assert(lines.push(x).drop_last() =~= lines);
}

/// Appends a line break and a line.
fn push_line(display: &mut String, line: &str)
    ensures
        final(display)@ == old(display)@ + "\n"@ + line@,
{
    push_str(display, "\n");
    push_str(display, line);
    assert(display@ =~= old(display)@ + "\n"@ + line@);
}

/// Build the formatted output from:
///   - `equations`  — the flat equation list (from flattener, shown as work)
///   - `steps`      — the solve trace from solver (e.g. ["x = 7", "y = 4"])
///   - `values`     — the final solved variables
///   - `question_vars` — the variable names the user actually asked about
///                       (used to pick which answer line(s) to highlight)
///
/// Output format:
///
///   Expressions:
///     x + 3 = 10
///     x = 7
///
///   Answer: x = 7
pub fn format_output(
    equations: &[Equation],
    steps: &[String],
    values: &Assignment,
    question_vars: &[String],
) -> (out: FormattedOutput)
    ensures
        out.equation_lines.deep_view() == spec_equation_lines(equations.deep_view()),
        out.answer_lines.deep_view() == spec_answer_lines(values@, question_vars.deep_view()),
        out.display@ == join_lines(
            spec_output_lines(equations.deep_view(), steps.deep_view(), values@, question_vars.deep_view()),
        ),
{
    let eq_lines = shown_equation_lines(equations);
    let extra = extra_steps(steps, &eq_lines);
    let answer_lines = if question_vars.len() == 0 {
        all_answers(values)
    } else {
        asked_answers(values, question_vars)
    };

    let ghost want = spec_output_lines(equations.deep_view(), steps.deep_view(), values@, question_vars.deep_view());
    let mut display = String::new();
    push_str(&mut display, "Expressions:");
    let ghost mut lines: Seq<Seq<char>> = seq!["Expressions:"@];
    assert(display@ =~= join_lines(lines));

    // Section 1: the equations, then the steps not already shown.
    let mut i: usize = 0;
    while i < eq_lines.len()
        invariant
            i <= eq_lines.len(),
            lines.len() >= 1,
            display@ == join_lines(lines),
            lines == seq!["Expressions:"@] + indented(eq_lines.deep_view().take(i as int)),
        decreases eq_lines.len() - i,
    {
        let mut line = String::new();
        push_str(&mut line, "  ");
        push_str(&mut line, eq_lines[i].as_str());
        let ghost prev = lines;
        push_line(&mut display, line.as_str());
        proof {
            lemma_join_push(lines, (line)@);
            lines = lines.push((line)@);
        }
        assert(indented(eq_lines.deep_view().take(i + 1)) =~= indented(eq_lines.deep_view().take(i as int)).push(
            "  "@ + eq_lines.deep_view()[i as int],
        ));
        assert(eq_lines.deep_view()[i as int] == eq_lines[i as int]@);
        assert(lines =~= seq!["Expressions:"@] + indented(eq_lines.deep_view().take(i + 1)));
        i = i + 1;
    }
    assert(eq_lines.deep_view().take(i as int) =~= eq_lines.deep_view());
    let ghost head = lines;
    let mut j: usize = 0;
    while j < extra.len()
        invariant
            j <= extra@.len(),
            lines.len() >= 1,
            display@ == join_lines(lines),
            lines == head + indented(extra.deep_view().take(j as int)),
        decreases extra@.len() - j,
    {
        let mut line = String::new();
        push_str(&mut line, "  ");
        push_str(&mut line, extra[j].as_str());
        push_line(&mut display, line.as_str());
        proof {
            lemma_join_push(lines, (line)@);
            lines = lines.push((line)@);
        }
        assert(indented(extra.deep_view().take(j + 1)) =~= indented(extra.deep_view().take(j as int)).push(
            "  "@ + extra.deep_view()[j as int],
        ));
        assert(extra.deep_view()[j as int] == extra@[j as int]@);
        assert(lines =~= head + indented(extra.deep_view().take(j + 1)));
        j = j + 1;
    }
    assert(extra.deep_view().take(j as int) =~= extra.deep_view());

    // A blank line, then section 2: the answer.
    push_line(&mut display, "");
        proof {
            lemma_join_push(lines, ("")@);
            lines = lines.push(("")@);
        }
    let ghost upper = lines;
    if answer_lines.len() == 1 {
        let mut line = String::new();
        push_str(&mut line, "Answer: ");
        push_str(&mut line, answer_lines[0].as_str());
        assert(answer_lines.deep_view()[0] == answer_lines[0]@);
        push_line(&mut display, line.as_str());
        proof {
            lemma_join_push(lines, (line)@);
            lines = lines.push((line)@);
        }
        assert(lines =~= upper + answer_section(answer_lines.deep_view()));
    } else {
        push_line(&mut display, "Answer:");
        proof {
            lemma_join_push(lines, ("Answer:")@);
            lines = lines.push(("Answer:")@);
        }
        let ghost top = lines;
        let mut k: usize = 0;
        while k < answer_lines.len()
            invariant
                k <= answer_lines.len(),
                lines.len() >= 1,
                display@ == join_lines(lines),
                lines == top + indented(answer_lines.deep_view().take(k as int)),
            decreases answer_lines.len() - k,
        {
            let mut line = String::new();
            push_str(&mut line, "  ");
            push_str(&mut line, answer_lines[k].as_str());
            push_line(&mut display, line.as_str());
        proof {
            lemma_join_push(lines, (line)@);
            lines = lines.push((line)@);
        }
            assert(indented(answer_lines.deep_view().take(k + 1)) =~= indented(
                answer_lines.deep_view().take(k as int),
            ).push("  "@ + answer_lines.deep_view()[k as int]));
            assert(answer_lines.deep_view()[k as int] == answer_lines[k as int]@);
            assert(lines =~= top + indented(answer_lines.deep_view().take(k + 1)));
            k = k + 1;
        }
        assert(answer_lines.deep_view().take(k as int) =~= answer_lines.deep_view());
        assert(lines =~= upper + answer_section(answer_lines.deep_view()));
    }
    assert(lines =~= want);
    FormattedOutput { display, equation_lines: eq_lines, answer_lines }
}

/// Format a number: no decimal point when the value is whole.
pub fn fmt_number(n: &Rational) -> (s: String)
    ensures
        s@ == spec_render(*n),
{
    n.to_decimal_string()
}


/// Without a question, the answer lines never show a temporary: no line
/// starts with `_`.
pub proof fn law_answers_hide_temporaries(values: Seq<(Seq<char>, Rational)>)
    ensures
        forall|i: int|
            0 <= i < spec_all_answers(values).len() ==> (#[trigger] spec_all_answers(values)[i]).len() > 0
                && spec_all_answers(values)[i][0] != '_',
    decreases values.len(),
{
    if values.len() > 0 {
        law_answers_hide_temporaries(values.drop_last());
        let r = spec_all_answers(values.drop_last());
        let (name, v) = values.last();
        reveal_strlit(" = ");
        if !(name.len() > 0 && name[0] == '_') {
            let line = binding_text(name, v);
            assert(line == name + " = "@ + spec_render(v));
            if name.len() > 0 {
                assert(line[0] == name[0]);
            } else {
                assert(line[0] == ' ');
            }
            assert forall|i: int| 0 <= i < r.push(line).len() implies (#[trigger] r.push(line)[i]).len() > 0
                && r.push(line)[i][0] != '_' by {
                if i < r.len() {
                    assert(r.push(line)[i] == r[i]);
                }
            }
        }
    }
}

} // verus!
