//! The decisions of the evaluator: which neighbouring tokens an operator combines, and
//! how the token list changes once the arithmetic (done by the caller) has a result.

use vstd::prelude::*;
use crate::brackets::{is_close, is_open, is_string_lbrac, is_string_rbrac};
use crate::numparse::float_syntax;
use crate::pattern::{complex_pair_pattern, complex_token_pattern, regex_matches, known_outcome};
use crate::text::{concat, contains, contains_spec};
use crate::tokens::{is_operator, is_string_numeric, is_string_operator, split_tokens};

verus! {

/// The token is a number (see `is_string_numeric`).
pub open spec fn numeric(t: Seq<char>) -> bool {
    float_syntax(t) || known_outcome(complex_token_pattern(), t) == Some(true)
}

/// What an operator does with the tokens at `i` and `i + 1`.
#[derive(PartialEq, Eq, Structural, Debug, Clone, Copy)]
pub enum PairAction {
    /// Both are numbers: the caller computes `a op b`, which replaces both.
    Numeric,
    /// One holds `x` and neither is an operator or a bracket, and the operator is one of
    /// `^ / * +`: the caller computes the polynomial result, which replaces both.
    Polynomial,
    /// Nothing to combine here: move on to the next pair.
    Skip,
}

/// Neither token is an operator or a bracket.
pub open spec fn plain_pair(a: Seq<char>, b: Seq<char>) -> bool {
    !is_operator(b) && !is_operator(a) && !is_open(b) && !is_close(b) && !is_open(a) && !is_close(a)
}

/// The action for the pair at `i` under the operator `op`.
pub open spec fn pair_action_spec(t: Seq<Seq<char>>, i: int, op: char) -> PairAction {
    if numeric(t[i]) && numeric(t[i + 1]) {
        PairAction::Numeric
    } else if t.len() > 1 && (contains_spec(t[i], "x"@) || contains_spec(t[i + 1], "x"@))
        && plain_pair(t[i], t[i + 1]) && (op == '^' || op == '/' || op == '*' || op == '+') {
        PairAction::Polynomial
    } else {
        PairAction::Skip
    }
}

/// All the runs joined back into one token list.
pub open spec fn flatten_runs(ss: Seq<Seq<Seq<char>>>) -> Seq<Seq<char>>
    decreases ss.len(),
{
    if ss.len() == 0 {
        seq![]
    } else {
        flatten_runs(ss.drop_last()) + ss.last()
    }
}

/// The left-to-right reduction of a token list under one operator, as
/// `operation_two_operands` runs it: a cursor at a pair of neighbouring tokens.
pub struct PairReduction {
    tokens: Vec<String>,
    i: usize,
}

impl PairReduction {
    /// The tokens as they stand.
    pub closed spec fn tokens_spec(&self) -> Seq<Seq<char>> {
        self.tokens.deep_view()
    }

    /// The index of the left token of the current pair.
    pub closed spec fn index_spec(&self) -> int {
        self.i as int
    }

    /// No pair is left: at most one token, or the cursor at the last token.
    pub open spec fn finished_spec(&self) -> bool {
        self.tokens_spec().len() <= 1 || self.index_spec() >= self.tokens_spec().len() - 1
    }

    /// The operands of the runs, joined in order (the operator tokens that separated the
    /// runs are gone), with the cursor at the first pair.
    pub fn start(oper_vec: Vec<Vec<String>>) -> (r: PairReduction)
        ensures
            r.tokens_spec() == flatten_runs(oper_vec.deep_view()),
            r.index_spec() == 0,
    {
        let ghost ss = oper_vec.deep_view();
        let mut temp_vec: Vec<String> = Vec::new();
        let mut exp_ind: usize = 0;
        while exp_ind < oper_vec.len()
            invariant
                exp_ind <= oper_vec.len(),
                ss == oper_vec.deep_view(),
                temp_vec.deep_view() == flatten_runs(ss.take(exp_ind as int)),
            decreases oper_vec.len() - exp_ind,
        {
            let ghost base = temp_vec.deep_view();
            let ghost run = ss[exp_ind as int];
            assert(oper_vec[exp_ind as int].deep_view() == run);
            let mut j: usize = 0;
            while j < oper_vec[exp_ind].len()
                invariant
                    exp_ind < oper_vec.len(),
                    run == oper_vec[exp_ind as int].deep_view(),
                    j <= run.len(),
                    temp_vec.deep_view() == base + run.take(j as int),
                decreases oper_vec[exp_ind as int].len() - j,
            {
                let t = oper_vec[exp_ind][j].clone();
                assert(t@ == run[j as int]);
                let ghost before = temp_vec.deep_view();
                temp_vec.push(t);
                assert(temp_vec.deep_view() =~= before.push(run[j as int]));
                assert(run.take(j + 1) =~= run.take(j as int).push(run[j as int]));
                assert(base + run.take(j + 1) =~= before.push(run[j as int]));
                j = j + 1;
            }
            assert(run.take(run.len() as int) =~= run);
            assert(ss.take(exp_ind + 1).drop_last() =~= ss.take(exp_ind as int));
            exp_ind = exp_ind + 1;
        }
        assert(ss.take(ss.len() as int) =~= ss);
        PairReduction { tokens: temp_vec, i: 0 }
    }

    /// Whether no pair is left.
    pub fn finished(&self) -> (r: bool)
        ensures
            r == self.finished_spec(),
    {
        self.tokens.len() <= 1 || self.i >= self.tokens.len() - 1
    }

    /// The tokens of the current pair.
    pub fn pair(&self) -> (r: (String, String))
        requires
            !self.finished_spec(),
        ensures
            r.0@ == self.tokens_spec()[self.index_spec()],
            r.1@ == self.tokens_spec()[self.index_spec() + 1],
    {
        assert(self.tokens.deep_view().len() == self.tokens.len());
        (self.tokens[self.i].clone(), self.tokens[self.i + 1].clone())
    }

    /// What the operator does with the current pair.
    pub fn action(&self, op: char) -> (r: PairAction)
        requires
            !self.finished_spec(),
        ensures
            r == pair_action_spec(self.tokens_spec(), self.index_spec(), op),
    {
        assert(self.tokens.deep_view().len() == self.tokens.len());
        let a = self.tokens[self.i].clone();
        let b = self.tokens[self.i + 1].clone();
        assert(a@ == self.tokens_spec()[self.index_spec()]);
        assert(b@ == self.tokens_spec()[self.index_spec() + 1]);
        if is_string_numeric(a.clone()) && is_string_numeric(b.clone()) {
            return PairAction::Numeric;
        }
        let has_x = contains(a.as_str(), "x") || contains(b.as_str(), "x");
        if self.tokens.len() > 1 && has_x && !is_string_operator(b.clone()) && !is_string_operator(a.clone())
            && !is_string_lbrac(b.clone()) && !is_string_rbrac(b.clone()) && !is_string_lbrac(a.clone())
            && !is_string_rbrac(a.clone()) && (op == '^' || op == '/' || op == '*' || op == '+') {
            PairAction::Polynomial
        } else {
            PairAction::Skip
        }
    }

    /// Replaces the current pair by the caller's result for it.
    pub fn combine(&mut self, res: String)
        requires
            !old(self).finished_spec(),
        ensures
            final(self).tokens_spec() == old(self).tokens_spec().remove(old(self).index_spec() + 1).update(
                old(self).index_spec(),
                res@,
            ),
            final(self).index_spec() == old(self).index_spec(),
    {
        assert(self.tokens.deep_view().len() == self.tokens.len());
        let ghost t = self.tokens.deep_view();
        self.tokens.remove(self.i + 1);
        self.tokens.set(self.i, res);
        assert(self.tokens.deep_view() =~= t.remove(self.i + 1).update(self.i as int, res@));
    }

    /// Moves the cursor to the next pair.
    pub fn skip(&mut self)
        requires
            !old(self).finished_spec(),
        ensures
            final(self).tokens_spec() == old(self).tokens_spec(),
            final(self).index_spec() == old(self).index_spec() + 1,
    {
        assert(self.tokens.deep_view().len() == self.tokens.len());
        self.i = self.i + 1;
    }

    /// The tokens as they stand.
    pub fn into_tokens(self) -> (r: Vec<String>)
        ensures
            r.deep_view() == self.tokens_spec(),
    {
        self.tokens
    }
}

/// Whether the pair of numbers is computed as complex numbers: the complex pattern
/// matches one of them.
pub fn is_complex_pair(a: &str, b: &str) -> (r: bool)
    ensures
        r == (known_outcome(complex_pair_pattern(), a@) == Some(true)
            || known_outcome(complex_pair_pattern(), b@) == Some(true)),
{
    let pat = "([0-9]*\\.?[0-9]*)(\\+|\\-)?([0-9]+\\.?[0-9]*i)";
    let ma = regex_matches(pat, a);
    let mb = regex_matches(pat, b);
    ma == Some(true) || mb == Some(true)
}

/// The text of the second complex operand: negated (a `-` in front) under `-`.
pub fn complex_second_operand(b: &str, op: char) -> (r: String)
    ensures
        r@ == if op == '-' { "-"@ + b@ } else { b@ },
{
    if op == '-' {
        concat("-", b)
    } else {
        proof {
            reveal_strlit("");
            assert(""@ + b@ =~= b@);
        }
        concat("", b)
    }
}


/// The tokens other than `sep`, in order.
pub open spec fn without(v: Seq<Seq<char>>, sep: Seq<char>) -> Seq<Seq<char>>
    decreases v.len(),
{
    if v.len() == 0 {
        v
    } else if v[0] == sep {
        without(v.skip(1), sep)
    } else {
        seq![v[0]] + without(v.skip(1), sep)
    }
}

proof fn lemma_flatten_front(ss: Seq<Seq<Seq<char>>>)
    requires
        ss.len() > 0,
    ensures
        flatten_runs(ss) == ss[0] + flatten_runs(ss.skip(1)),
    decreases ss.len(),
{
    if ss.len() == 1 {
        assert(ss.drop_last() =~= Seq::<Seq<Seq<char>>>::empty());
        assert(ss.skip(1) =~= Seq::<Seq<Seq<char>>>::empty());
        assert(ss[0] + Seq::<Seq<char>>::empty() =~= ss[0]);
    } else {
        lemma_flatten_front(ss.drop_last());
        assert(ss.drop_last().skip(1) =~= ss.skip(1).drop_last());
        assert(ss.skip(1).last() == ss.last());
        assert(ss[0] + flatten_runs(ss.skip(1).drop_last()) + ss.last() =~= ss[0] + (flatten_runs(ss.skip(1).drop_last()) + ss.last()));
    }
}

/// Splitting a token list at an operator and joining the runs again gives the list without
/// that operator: `operation_two_operands` works on exactly the operands.
pub proof fn law_runs_rejoin_without_separator(v: Seq<Seq<char>>, sep: Seq<char>)
    ensures
        flatten_runs(split_tokens(v, sep)) == without(v, sep),
    decreases v.len(),
{
    if v.len() == 0 {
        assert(flatten_runs(seq![Seq::<Seq<char>>::empty()]) =~= Seq::<Seq<char>>::empty()) by {
            lemma_flatten_front(seq![Seq::<Seq<char>>::empty()]);
            assert(seq![Seq::<Seq<char>>::empty()].skip(1) =~= Seq::<Seq<Seq<char>>>::empty());
        }
    } else {
        law_runs_rejoin_without_separator(v.skip(1), sep);
        let r = split_tokens(v.skip(1), sep);
        crate::tokens::lemma_split_tokens_nonempty(v.skip(1), sep);
        lemma_flatten_front(r);
        if v[0] == sep {
            let r2 = seq![Seq::<Seq<char>>::empty()] + r;
            lemma_flatten_front(r2);
            assert(r2.skip(1) =~= r);
            assert(Seq::<Seq<char>>::empty() + flatten_runs(r) =~= flatten_runs(r));
        } else {
            let r2 = r.update(0, seq![v[0]] + r[0]);
            lemma_flatten_front(r2);
            assert(r2.skip(1) =~= r.skip(1));
            assert(seq![v[0]] + r[0] + flatten_runs(r.skip(1)) =~= seq![v[0]] + (r[0] + flatten_runs(r.skip(1))));
        }
    }
}

/// Every operator that has a polynomial form (`^`, `/`, `*` and `+`) combines a pair of
/// plain neighbouring tokens (neither an operator nor a bracket) one of which holds `x`:
/// such a pair is never skipped. Two numbers are combined as numbers, whatever the
/// operator.
pub proof fn law_polynomial_pairs_are_combined(t: Seq<Seq<char>>, i: int, op: char)
    requires
        0 <= i,
        i + 1 < t.len(),
        op == '^' || op == '/' || op == '*' || op == '+',
        contains_spec(t[i], "x"@) || contains_spec(t[i + 1], "x"@),
        !is_operator(t[i]) && !is_operator(t[i + 1]),
        !is_open(t[i]) && !is_close(t[i]) && !is_open(t[i + 1]) && !is_close(t[i + 1]),
    ensures
        pair_action_spec(t, i, op) != PairAction::Skip,
        pair_action_spec(t, i, '*') != PairAction::Skip,
        !(numeric(t[i]) && numeric(t[i + 1])) ==> pair_action_spec(t, i, op) == PairAction::Polynomial,
        numeric(t[i]) && numeric(t[i + 1]) ==> pair_action_spec(t, i, op) == PairAction::Numeric,
{
}

} // verus!
