//! Evaluation of a postfix expression, up to the arithmetic itself: the
//! tokens are classified and run through the evaluation stack, and the
//! result is a [`Program`], a list of steps that each either reads a number
//! or applies an operator to the results of two earlier steps. Folding the
//! steps in order with any arithmetic gives the value of the expression.
use vstd::prelude::*;
use crate::literal::{is_float_literal, is_number_literal};
use crate::text::{chars_of, tokenize, tokens_of};

verus! {

/// The four binary operators.
#[derive(Clone, Copy, Debug, PartialEq, Eq, Structural)]
pub enum Operator {
    Plus,
    Minus,
    Times,
    Div,
}

/// What a token stands for: a number, or an operator.
#[derive(Clone, Copy, Debug, PartialEq, Eq, Structural)]
pub enum Expression {
    Number,
    Operator(Operator),
}

/// Why an expression has no value.
#[derive(Clone, Copy, Debug, PartialEq, Eq, Structural)]
pub enum RNPError {
    /// A token is neither a number nor an operator.
    InvalidOperand,
    /// An operator found fewer than two operands, or the expression did not
    /// leave exactly one value.
    TermsQuantityInvalid,
}

/// A term of the expression: a number literal, or an operator applied to a
/// left and a right operand.
pub enum Term {
    Number(Seq<char>),
    Apply(Operator, Box<Term>, Box<Term>),
}

/// One step of a [`Program`].
#[derive(Debug, PartialEq, Eq)]
pub enum Step {
    /// Read the number that this literal denotes.
    Number(String),
    /// Apply the operator to the results of two earlier steps: the left
    /// operand, then the right one.
    Apply(Operator, usize, usize),
}

/// The steps that compute an expression's value. Each step refers only to
/// steps before it; the last step gives the value.
#[derive(Debug, PartialEq, Eq)]
pub struct Program {
    pub steps: Vec<Step>,
}

/// What a token stands for, if anything. The operator symbols are checked
/// first, then the number grammar.
pub open spec fn classify(t: Seq<char>) -> Option<Expression> {
    if t == seq!['+'] {
        Some(Expression::Operator(Operator::Plus))
    } else if t == seq!['-'] {
        Some(Expression::Operator(Operator::Minus))
    } else if t == seq!['*'] {
        Some(Expression::Operator(Operator::Times))
    } else if t == seq!['/'] {
        Some(Expression::Operator(Operator::Div))
    } else if is_float_literal(t) {
        Some(Expression::Number)
    } else {
        None
    }
}

/// The stack after token `t`, from the stack before it. A number is pushed;
/// an operator replaces the two topmost terms by its application, with the
/// term pushed earlier as the left operand.
pub open spec fn push_token(stack: Seq<Term>, t: Seq<char>) -> Result<Seq<Term>, RNPError> {
    match classify(t) {
        None => Err(RNPError::InvalidOperand),
        Some(Expression::Number) => Ok(stack.push(Term::Number(t))),
        Some(Expression::Operator(op)) => {
            if stack.len() < 2 {
                Err(RNPError::TermsQuantityInvalid)
            } else {
                let n = stack.len();
                Ok(
                    stack.take(n - 2).push(
                        Term::Apply(op, Box::new(stack[n - 2]), Box::new(stack[n - 1])),
                    ),
                )
            }
        },
    }
}

/// The stack after the tokens `ts`, from an empty one; the first error
/// stops the run.
pub open spec fn run(ts: Seq<Seq<char>>) -> Result<Seq<Term>, RNPError>
    decreases ts.len(),
{
    if ts.len() == 0 {
        Ok(Seq::empty())
    } else {
        match run(ts.drop_last()) {
            Err(e) => Err(e),
            Ok(stack) => push_token(stack, ts.last()),
        }
    }
}

/// The term that the tokens `ts` denote: the one term left on the stack.
pub open spec fn outcome(ts: Seq<Seq<char>>) -> Result<Term, RNPError> {
    match run(ts) {
        Err(e) => Err(e),
        Ok(stack) => {
            if stack.len() == 1 {
                Ok(stack[0])
            } else {
                Err(RNPError::TermsQuantityInvalid)
            }
        },
    }
}

/// The term that an input line denotes.
pub open spec fn evaluation(s: Seq<char>) -> Result<Term, RNPError> {
    outcome(tokens_of(s))
}

/// Each step refers only to steps before it.
pub open spec fn steps_ordered(steps: Seq<Step>) -> bool {
    forall|i: int|
        0 <= i < steps.len() ==> match #[trigger] steps[i] {
            Step::Apply(_, l, r) => l < i && r < i,
            Step::Number(_) => true,
        }
}

/// The term that step `i` computes.
pub open spec fn term_at(steps: Seq<Step>, i: int) -> Term
    decreases i,
{
    if 0 <= i < steps.len() {
        match steps[i] {
            Step::Number(s) => Term::Number(s@),
            Step::Apply(op, l, r) => {
                if l < i && r < i {
                    Term::Apply(
                        op,
                        Box::new(term_at(steps, l as int)),
                        Box::new(term_at(steps, r as int)),
                    )
                } else {
                    Term::Number(Seq::empty())
                }
            },
        }
    } else {
        Term::Number(Seq::empty())
    }
}

impl Program {
    /// At least one step, and each refers only to steps before it.
    pub open spec fn wf(&self) -> bool {
        self.steps@.len() > 0 && steps_ordered(self.steps@)
    }

    /// The term that the last step computes.
    pub open spec fn term(&self) -> Term {
        term_at(self.steps@, self.steps@.len() - 1)
    }
}

proof fn lemma_term_at_push(steps: Seq<Step>, x: Step, i: int)
    requires
        steps_ordered(steps),
        0 <= i < steps.len(),
    ensures
        term_at(steps.push(x), i) == term_at(steps, i),
    decreases i,
{
    assert(steps.push(x)[i] == steps[i]);
    match steps[i] {
        Step::Apply(_, l, r) => {
            lemma_term_at_push(steps, x, l as int);
            lemma_term_at_push(steps, x, r as int);
        },
        Step::Number(_) => {},
    }
}

proof fn lemma_run_error_stays(ts: Seq<Seq<char>>, k: int)
    requires
        0 <= k <= ts.len(),
        run(ts.take(k)) is Err,
    ensures
        run(ts) == run(ts.take(k)),
    decreases ts.len(),
{
    if k == ts.len() {
        assert(ts.take(k) =~= ts);
    } else {
        assert(ts.drop_last().take(k) =~= ts.take(k));
        lemma_run_error_stays(ts.drop_last(), k);
    }
}

/// What the token `t` stands for.
pub fn classify_token(t: &str) -> (r: Option<Expression>)
    ensures
        r == classify(t@),
{
    let cs = chars_of(t);
    if cs.len() == 1 {
        assert(cs@ =~= seq![cs@[0]]);
        if cs[0] == '+' {
            return Some(Expression::Operator(Operator::Plus));
        } else if cs[0] == '-' {
            return Some(Expression::Operator(Operator::Minus));
        } else if cs[0] == '*' {
            return Some(Expression::Operator(Operator::Times));
        } else if cs[0] == '/' {
            return Some(Expression::Operator(Operator::Div));
        }
    }
    assert(cs@ != seq!['+'] && cs@ != seq!['-'] && cs@ != seq!['*'] && cs@ != seq!['/']) by {
        if cs@.len() != 1 {
            assert(seq!['+'].len() == 1);
            assert(seq!['-'].len() == 1);
            assert(seq!['*'].len() == 1);
            assert(seq!['/'].len() == 1);
        }
    }
    if is_number_literal(&cs) {
        Some(Expression::Number)
    } else {
        None
    }
}

/// Reads `expression` as a postfix expression. The result is the program
/// that computes the term it denotes, or the first error met: a token that
/// is neither a number nor an operator, an operator with fewer than two
/// operands, or an end with other than one value on the stack. An empty or
/// blank line has no tokens and gives `TermsQuantityInvalid`.
pub fn parse(expression: &str) -> (r: Result<Program, RNPError>)
    ensures
        match evaluation(expression@) {
            Ok(t) => r is Ok && r->Ok_0.wf() && r->Ok_0.term() == t,
            Err(e) => r is Err && r->Err_0 == e,
        },
{
    let tokens = tokenize(expression);
    let ghost ts = tokens@.map_values(|t: String| t@);
    let mut steps: Vec<Step> = Vec::new();
    let mut stack: Vec<usize> = Vec::new();
    let mut j: usize = 0;
    assert(ts.take(0) =~= Seq::<Seq<char>>::empty());
    while j < tokens.len()
        invariant
            ts == tokens@.map_values(|t: String| t@),
            ts == tokens_of(expression@),
            j <= tokens.len(),
            run(ts.take(j as int)) is Ok,
            stack@.len() == run(ts.take(j as int))->Ok_0.len(),
            forall|k: int|
                0 <= k < stack@.len() ==> #[trigger] stack@[k] < steps@.len() && term_at(
                    steps@,
                    stack@[k] as int,
                ) == run(ts.take(j as int))->Ok_0[k],
            steps_ordered(steps@),
            stack@.len() > 0 ==> stack@.last() == steps@.len() - 1,
        decreases tokens.len() - j,
    {
        let ghost before = run(ts.take(j as int))->Ok_0;
        assert(ts.take(j + 1).drop_last() =~= ts.take(j as int));
        assert(ts.take(j + 1).last() == tokens@[j as int]@);
        let t = &tokens[j];
        match classify_token(t.as_str()) {
            None => {
                proof {
                    lemma_run_error_stays(ts, j + 1);
                }
                return Err(RNPError::InvalidOperand);
            },
            Some(Expression::Number) => {
                let ghost old_steps = steps@;
                steps.push(Step::Number(t.clone()));
                assert(steps@ =~= old_steps.push(steps@.last()));
                let ghost after = run(ts.take(j + 1))->Ok_0;
                assert forall|k: int| 0 <= k < stack@.len() implies term_at(
                    steps@,
                    #[trigger] stack@[k] as int,
                ) == after[k] by {
                    lemma_term_at_push(old_steps, steps@.last(), stack@[k] as int);
                }
                stack.push(steps.len() - 1);
            },
            Some(Expression::Operator(op)) => {
                let one = match stack.pop() {
                    Some(x) => x,
                    None => {
                        proof {
                            lemma_run_error_stays(ts, j + 1);
                        }
                        return Err(RNPError::TermsQuantityInvalid);
                    },
                };
                let two = match stack.pop() {
                    Some(x) => x,
                    None => {
                        proof {
                            lemma_run_error_stays(ts, j + 1);
                        }
                        return Err(RNPError::TermsQuantityInvalid);
                    },
                };
                let ghost old_steps = steps@;
                let ghost n = before.len();
                assert(stack@.len() == n - 2);
                assert(term_at(old_steps, one as int) == before[n - 1]);
                assert(term_at(old_steps, two as int) == before[n - 2]);
                steps.push(Step::Apply(op, two, one));
                let ghost after = run(ts.take(j + 1))->Ok_0;
                proof {
                    lemma_term_at_push(old_steps, Step::Apply(op, two, one), one as int);
                    lemma_term_at_push(old_steps, Step::Apply(op, two, one), two as int);
                }
                assert forall|k: int| 0 <= k < stack@.len() implies term_at(
                    steps@,
                    #[trigger] stack@[k] as int,
                ) == after[k] by {
                    lemma_term_at_push(old_steps, Step::Apply(op, two, one), stack@[k] as int);
                }
                stack.push(steps.len() - 1);
            },
        }
        j = j + 1;
    }
    assert(ts.take(j as int) =~= ts);
    if stack.len() != 1 {
        return Err(RNPError::TermsQuantityInvalid);
    }
    Ok(Program { steps })
}

/// The number of values on the stack after the tokens `ts`, counting each
/// number as one more and anything else as one less.
pub open spec fn depth(ts: Seq<Seq<char>>) -> int
    decreases ts.len(),
{
    if ts.len() == 0 {
        0
    } else {
        depth(ts.drop_last()) + if classify(ts.last()) == Some(Expression::Number) {
            1int
        } else {
            -1int
        }
    }
}

/// Every token is a number or an operator, and every operator comes after
/// at least two more numbers than operators.
pub open spec fn well_fed(ts: Seq<Seq<char>>) -> bool {
    forall|j: int|
        0 <= j < ts.len() ==> (#[trigger] classify(ts[j]) is Some && (classify(ts[j])
            != Some(Expression::Number) ==> depth(ts.take(j)) >= 2))
}

/// A balanced postfix expression: every token is a number or an operator,
/// every operator has two operands, and one value is left at the end.
pub open spec fn balanced(ts: Seq<Seq<char>>) -> bool {
    well_fed(ts) && depth(ts) == 1
}

proof fn lemma_run_depth(ts: Seq<Seq<char>>)
    ensures
        (run(ts) is Ok) == well_fed(ts),
        run(ts) is Ok ==> run(ts)->Ok_0.len() == depth(ts),
    decreases ts.len(),
{
    if ts.len() > 0 {
        let p = ts.drop_last();
        let n = ts.len() - 1;
        lemma_run_depth(p);
        assert(ts.take(n) =~= p);
        assert forall|j: int| 0 <= j < n implies ts[j] == p[j] && ts.take(j) == p.take(j) by {
            assert(ts.take(j) =~= p.take(j));
        }
        if well_fed(ts) {
            assert forall|j: int| 0 <= j < p.len() implies (#[trigger] classify(p[j]) is Some && (
            classify(p[j]) != Some(Expression::Number) ==> depth(p.take(j)) >= 2)) by {
                assert(ts[j] == p[j] && ts.take(j) == p.take(j));
                assert(classify(ts[j]) is Some);
            }
            assert(classify(ts[n]) is Some);
        }
        if run(ts) is Ok {
            assert forall|j: int| 0 <= j < ts.len() implies (#[trigger] classify(ts[j]) is Some && (
            classify(ts[j]) != Some(Expression::Number) ==> depth(ts.take(j)) >= 2)) by {
                if j < n {
                    assert(ts[j] == p[j] && ts.take(j) == p.take(j));
                    assert(classify(p[j]) is Some);
                }
            }
        }
    }
}

/// An expression evaluates if and only if it is balanced: every token is a
/// number or an operator, every operator finds two values on the stack,
/// and exactly one value is left at the end.
pub proof fn lemma_balanced_evaluates(s: Seq<char>)
    ensures
        (evaluation(s) is Ok) == balanced(tokens_of(s)),
{
    lemma_run_depth(tokens_of(s));
}

/// The token that stands for `op`.
pub open spec fn symbol(op: Operator) -> Seq<char> {
    match op {
        Operator::Plus => seq!['+'],
        Operator::Minus => seq!['-'],
        Operator::Times => seq!['*'],
        Operator::Div => seq!['/'],
    }
}

/// The tokens that spell `t` in postfix: the left operand, the right
/// operand, then the operator.
pub open spec fn postfix(t: Term) -> Seq<Seq<char>>
    decreases t,
{
    match t {
        Term::Number(s) => seq![s],
        Term::Apply(op, l, r) => postfix(*l) + postfix(*r) + seq![symbol(op)],
    }
}

/// The postfix spellings of the terms of a stack, bottom first.
pub open spec fn spell_stack(stack: Seq<Term>) -> Seq<Seq<char>>
    decreases stack.len(),
{
    if stack.len() == 0 {
        Seq::empty()
    } else {
        spell_stack(stack.drop_last()) + postfix(stack.last())
    }
}

proof fn lemma_run_spells(ts: Seq<Seq<char>>)
    requires
        run(ts) is Ok,
    ensures
        spell_stack(run(ts)->Ok_0) == ts,
        forall|k: int|
            0 <= k < run(ts)->Ok_0.len() ==> literals_valid(#[trigger] run(ts)->Ok_0[k]),
    decreases ts.len(),
{
    if ts.len() == 0 {
        assert(spell_stack(Seq::empty()) =~= ts);
    } else {
        let p = ts.drop_last();
        lemma_run_spells(p);
        let st = run(p)->Ok_0;
        let t = ts.last();
        let n = st.len();
        match classify(t) {
            Some(Expression::Number) => {
                assert(st.push(Term::Number(t)).drop_last() =~= st);
                assert(literals_valid(Term::Number(t)));
                assert forall|k: int| 0 <= k < st.len() + 1 implies literals_valid(
                    #[trigger] st.push(Term::Number(t))[k],
                ) by {
                    if k < st.len() {
                        assert(st.push(Term::Number(t))[k] == st[k]);
                    }
                }
                assert(postfix(Term::Number(t)) =~= seq![t]);
                assert(ts =~= p + seq![t]);
            },
            Some(Expression::Operator(op)) => {
                let a = Term::Apply(op, Box::new(st[n - 2]), Box::new(st[n - 1]));
                let st2 = st.take(n - 2).push(a);
                assert(st2.drop_last() =~= st.take(n - 2));
                assert(literals_valid(st[n - 2]) && literals_valid(st[n - 1]));
                assert forall|k: int| 0 <= k < st2.len() implies literals_valid(#[trigger] st2[k]) by {
                    if k < n - 2 {
                        assert(st2[k] == st[k]);
                    }
                }
                assert(st.drop_last() =~= st.take(n - 1));
                assert(st.take(n - 1).drop_last() =~= st.take(n - 2));
                assert(symbol(op) == t);
                assert(ts =~= p + seq![t]);
                assert(spell_stack(st) == spell_stack(st.take(n - 1)) + postfix(st[n - 1]));
                assert(spell_stack(st.take(n - 1)) == spell_stack(st.take(n - 2)) + postfix(
                    st[n - 2],
                ));
                assert(ts =~= spell_stack(st.take(n - 2)) + postfix(st[n - 2]) + postfix(st[n - 1])
                    + seq![t]);
                assert(spell_stack(st2) =~= spell_stack(st.take(n - 2)) + postfix(st[n - 2])
                    + postfix(st[n - 1]) + seq![t]);
            },
            None => {},
        }
    }
}

/// The term that an expression denotes is spelled, in postfix, by the
/// expression's own tokens: each operator applies to the two operands
/// written before it, the earlier one on the left, and every literal in it
/// reads as a number.
pub proof fn lemma_evaluation_spells_tokens(s: Seq<char>)
    requires
        evaluation(s) is Ok,
    ensures
        postfix(evaluation(s)->Ok_0) == tokens_of(s),
        literals_valid(evaluation(s)->Ok_0),
{
    let ts = tokens_of(s);
    lemma_run_spells(ts);
    let st = run(ts)->Ok_0;
    assert(st.drop_last() =~= Seq::<Term>::empty());
    assert(spell_stack(st) == spell_stack(Seq::<Term>::empty()) + postfix(st[0]));
    assert(Seq::<Seq<char>>::empty() + postfix(st[0]) =~= postfix(st[0]));
}

/// Every literal in `t` reads as a number.
pub open spec fn literals_valid(t: Term) -> bool
    decreases t,
{
    match t {
        Term::Number(s) => classify(s) == Some(Expression::Number),
        Term::Apply(_, l, r) => literals_valid(*l) && literals_valid(*r),
    }
}

/// The stack after the tokens `q`, from the state `r`.
pub open spec fn run_from(r: Result<Seq<Term>, RNPError>, q: Seq<Seq<char>>) -> Result<
    Seq<Term>,
    RNPError,
>
    decreases q.len(),
{
    if q.len() == 0 {
        r
    } else {
        match run_from(r, q.drop_last()) {
            Err(e) => Err(e),
            Ok(stack) => push_token(stack, q.last()),
        }
    }
}

proof fn lemma_run_from_concat(r: Result<Seq<Term>, RNPError>, a: Seq<Seq<char>>, b: Seq<Seq<char>>)
    ensures
        run_from(r, a + b) == run_from(run_from(r, a), b),
    decreases b.len(),
{
    if b.len() == 0 {
        assert(a + b =~= a);
    } else {
        assert((a + b).drop_last() =~= a + b.drop_last());
        assert((a + b).last() == b.last());
        lemma_run_from_concat(r, a, b.drop_last());
    }
}

proof fn lemma_symbol_classifies(op: Operator)
    ensures
        classify(symbol(op)) == Some(Expression::Operator(op)),
{
    let t = symbol(op);
    assert(t == seq!['+'] ==> t[0] == '+');
    assert(t == seq!['-'] ==> t[0] == '-');
    assert(t == seq!['*'] ==> t[0] == '*');
}

proof fn lemma_run_term(stack: Seq<Term>, t: Term)
    requires
        literals_valid(t),
    ensures
        run_from(Ok(stack), postfix(t)) == Ok::<Seq<Term>, RNPError>(stack.push(t)),
    decreases t,
{
    match t {
        Term::Number(s) => {
            let q = postfix(t);
            assert(q.drop_last() =~= Seq::<Seq<char>>::empty());
            assert(run_from(Ok(stack), q.drop_last()) == Ok::<Seq<Term>, RNPError>(stack));
            assert(q.last() == s);
            assert(push_token(stack, s) == Ok::<Seq<Term>, RNPError>(stack.push(t)));
            assert(q.len() == 1);
            assert(run_from(Ok(stack), q) == push_token(stack, s));
        },
        Term::Apply(op, l, r) => {
            let pl = postfix(*l);
            let pr = postfix(*r);
            let sy = seq![symbol(op)];
            lemma_run_term(stack, *l);
            lemma_run_term(stack.push(*l), *r);
            lemma_run_from_concat(Ok(stack), pl, pr);
            lemma_run_from_concat(Ok(stack), pl + pr, sy);
            lemma_symbol_classifies(op);
            assert(sy.drop_last() =~= Seq::<Seq<char>>::empty());
            let st2 = stack.push(*l).push(*r);
            assert(st2.take(st2.len() - 2) =~= stack);
            assert(run_from(Ok(stack), pl + pr) == Ok::<Seq<Term>, RNPError>(st2));
            assert(sy.len() == 1 && sy.last() == symbol(op));
            assert(run_from(Ok(st2), sy.drop_last()) == Ok::<Seq<Term>, RNPError>(st2));
            assert(run_from(Ok(st2), sy) == push_token(st2, symbol(op)));
            assert(postfix(t) == pl + pr + sy);
        },
    }
}

/// A line whose tokens spell a term in postfix, with every literal a
/// number, evaluates to that term.
pub proof fn lemma_postfix_evaluates(s: Seq<char>, t: Term)
    requires
        literals_valid(t),
        tokens_of(s) == postfix(t),
    ensures
        evaluation(s) == Ok::<Term, RNPError>(t),
{
    lemma_run_term(Seq::empty(), t);
    lemma_run_from_start(postfix(t));
    assert(Seq::<Term>::empty().push(t)[0] == t);
}

proof fn lemma_run_from_start(ts: Seq<Seq<char>>)
    ensures
        run(ts) == run_from(Ok(Seq::empty()), ts),
    decreases ts.len(),
{
    if ts.len() > 0 {
        lemma_run_from_start(ts.drop_last());
    }
}

} // verus!
