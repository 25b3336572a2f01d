//! The decisions of function evaluation (`sin 30`, `log 2 8`, ...): which token names a
//! function, whether it is negated, which operands follow it, and how the token list
//! changes once the caller has computed the value.

use vstd::prelude::*;
use crate::evaluate::numeric;
use crate::pattern::{
    function_pattern, log_pattern, lowercase, regex_matches, known_outcome, to_lowercase, trig_pattern,
};
use crate::text::{skip_chars, to_chars};
use crate::tokens::is_string_numeric;

verus! {

/// The pattern matches the lowercase form of the token.
pub open spec fn matches(pattern: Seq<char>, t: Seq<char>) -> bool {
    known_outcome(pattern, lowercase(t)) == Some(true)
}

/// The two kinds of function: trigonometric ones and the logarithm.
#[derive(PartialEq, Eq, Structural, Debug, Clone, Copy)]
pub enum FunctionKind {
    Trig,
    Log,
}

/// A function to evaluate at the cursor.
pub struct FunctionCall {
    pub kind: FunctionKind,
    /// The function's name in lowercase, without a leading `-`.
    pub name: String,
    /// Whether the result is to be negated (the name had a leading `-`).
    pub negated: bool,
    /// The numbers that follow the name.
    pub operands: Vec<String>,
}

/// What happens at the cursor.
pub enum FunctionStep {
    /// The cursor is past the last token.
    Done,
    /// No function to evaluate here: move on.
    Next,
    /// A function name is the last token, where its operands are read past the end.
    MissingOperand,
    /// A function to evaluate.
    Call(FunctionCall),
}

/// The maximal run of numbers starting at `start`.
pub open spec fn numeric_run(t: Seq<Seq<char>>, start: int) -> Seq<Seq<char>>
    decreases t.len() - start,
{
    if start < 0 || start >= t.len() || !numeric(t[start]) {
        seq![]
    } else {
        seq![t[start]] + numeric_run(t, start + 1)
    }
}

/// The mathematical content of a step.
pub enum StepSpec {
    Done,
    Next,
    MissingOperand,
    Call { kind: FunctionKind, name: Seq<char>, negated: bool, operands: Seq<Seq<char>> },
}

/// The name without its leading `-`, and whether there was one, when the token is a
/// trigonometric function or `log`; otherwise the token and the sign carried over.
pub open spec fn signed_name(t: Seq<char>, neg: bool) -> (Seq<char>, bool) {
    if matches(trig_pattern(), t) || matches(log_pattern(), t) {
        let n = t.len() > 0 && t[0] == '-';
        (if n { t.skip(1) } else { t }, n)
    } else {
        (t, neg)
    }
}

/// The step at index `ind`, with the sign `neg` last read and, right after a
/// trigonometric value was put in, that function's operands in `pending`.
pub open spec fn step_spec(t: Seq<Seq<char>>, ind: int, neg: bool, pending: Option<Seq<Seq<char>>>) -> StepSpec {
    if ind < 0 || ind >= t.len() {
        StepSpec::Done
    } else {
        match pending {
            Some(ops) => if matches(log_pattern(), t[ind]) {
                StepSpec::Call { kind: FunctionKind::Log, name: lowercase(t[ind]), negated: neg, operands: ops }
            } else {
                StepSpec::Next
            },
            None => {
                let (name, n) = signed_name(t[ind], neg);
                if matches(function_pattern(), name) && ind + 1 >= t.len() {
                    StepSpec::MissingOperand
                } else {
                    let ops = if matches(function_pattern(), name) { numeric_run(t, ind + 1) } else { seq![] };
                    if matches(trig_pattern(), name) {
                        StepSpec::Call { kind: FunctionKind::Trig, name: lowercase(name), negated: n, operands: ops }
                    } else if matches(log_pattern(), name) {
                        StepSpec::Call { kind: FunctionKind::Log, name: lowercase(name), negated: n, operands: ops }
                    } else {
                        StepSpec::Next
                    }
                }
            },
        }
    }
}

/// The run of function evaluations over a token list, as `functions` runs it.
pub struct FunctionScan {
    tokens: Vec<String>,
    ind: usize,
    neg: bool,
    pending: Option<Vec<String>>,
}

impl FunctionStep {
    /// The mathematical content of the step.
    pub open spec fn view_spec(&self) -> StepSpec {
        match self {
            FunctionStep::Done => StepSpec::Done,
            FunctionStep::Next => StepSpec::Next,
            FunctionStep::MissingOperand => StepSpec::MissingOperand,
            FunctionStep::Call(c) => StepSpec::Call {
                kind: c.kind,
                name: c.name@,
                negated: c.negated,
                operands: c.operands.deep_view(),
            },
        }
    }
}

impl FunctionScan {
    /// The tokens as they stand.
    pub closed spec fn tokens_spec(&self) -> Seq<Seq<char>> {
        self.tokens.deep_view()
    }

    /// The index of the token at the cursor.
    pub closed spec fn index_spec(&self) -> int {
        self.ind as int
    }

    /// The sign last read from a function name (see `signed_name`).
    pub closed spec fn neg_spec(&self) -> bool {
        self.neg
    }

    /// Right after a trigonometric value was put in, that function's operands.
    pub closed spec fn pending_spec(&self) -> Option<Seq<Seq<char>>> {
        match self.pending {
            Some(p) => Some(p.deep_view()),
            None => None,
        }
    }

    /// The step at the cursor.
    pub open spec fn current(&self) -> StepSpec {
        step_spec(self.tokens_spec(), self.index_spec(), self.neg_spec(), self.pending_spec())
    }

    /// A run over the tokens, with the cursor at the first one.
    pub fn start(oper_vec: Vec<String>) -> (r: FunctionScan)
        ensures
            r.tokens_spec() == oper_vec.deep_view(),
            r.index_spec() == 0,
            !r.neg_spec(),
            r.pending_spec() is None,
    {
        FunctionScan { tokens: oper_vec, ind: 0, neg: false, pending: None }
    }

    /// The maximal run of numbers starting at `start`.
    fn numbers_from(&self, start: usize) -> (r: Vec<String>)
        requires
            start <= self.tokens.len(),
        ensures
            r.deep_view() == numeric_run(self.tokens_spec(), start as int),
    {
        let ghost t = self.tokens_spec();
        let mut cur = start;
        let mut out: Vec<String> = Vec::new();
        while cur < self.tokens.len() && is_string_numeric(self.tokens[cur].clone())
            invariant
                start <= cur <= self.tokens.len(),
                t == self.tokens_spec(),
                t.len() == self.tokens.len(),
                out.deep_view() + numeric_run(t, cur as int) == numeric_run(t, start as int),
            decreases self.tokens.len() - cur,
        {
            let tok = self.tokens[cur].clone();
            assert(tok@ == t[cur as int]);
            let ghost before = out.deep_view();
            out.push(tok);
            assert(out.deep_view() =~= before.push(t[cur as int]));
            assert(numeric_run(t, cur as int) == seq![t[cur as int]] + numeric_run(t, cur + 1));
            assert(before + numeric_run(t, cur as int) =~= out.deep_view() + numeric_run(t, cur + 1));
            cur = cur + 1;
        }
        proof {
            if cur < self.tokens.len() {
                assert(self.tokens[cur as int]@ == t[cur as int]);
            }
            assert(out.deep_view() + Seq::<Seq<char>>::empty() =~= out.deep_view());
        }
        out
    }

    /// What happens at the cursor.
    pub fn step(&self) -> (r: FunctionStep)
        ensures
            r.view_spec() == self.current(),
    {
        let ghost t = self.tokens_spec();
        assert(t.len() == self.tokens.len());
        if self.ind >= self.tokens.len() {
            return FunctionStep::Done;
        }
        let tok = self.tokens[self.ind].clone();
        assert(tok@ == t[self.ind as int]);
        let lt = to_lowercase(tok.as_str());
        match &self.pending {
            Some(ops) => {
                assert(self.pending_spec() == Some(ops.deep_view()));
                if regex_matches("^-?log$", lt.as_str()) == Some(true) {
                    FunctionStep::Call(FunctionCall {
                        kind: FunctionKind::Log,
                        name: lt,
                        negated: self.neg,
                        operands: clone_tokens(ops),
                    })
                } else {
                    FunctionStep::Next
                }
            },
            None => {
                let is_trig = regex_matches("^-?((cos|sin|tan|sec|cosec|cot)h?)$", lt.as_str()) == Some(true);
                let is_log = regex_matches("^-?log$", lt.as_str()) == Some(true);
                let mut name = tok.clone();
                let mut n = self.neg;
                if is_trig || is_log {
                    let cs = to_chars(tok.as_str());
                    n = cs.len() > 0 && cs[0] == '-';
                    if n {
                        name = skip_chars(tok.as_str(), 1);
                    }
                }
                assert((name@, n) == signed_name(t[self.ind as int], self.neg));
                let lname = to_lowercase(name.as_str());
                let is_fn = regex_matches("^-?(cos|sin|tan|sec|cosec|cot|log(_[0-9]+_)?)h?$", lname.as_str()) == Some(true);
                if is_fn && self.ind + 1 >= self.tokens.len() {
                    return FunctionStep::MissingOperand;
                }
                let ops = if is_fn {
                    self.numbers_from(self.ind + 1)
                } else {
                    let v: Vec<String> = Vec::new();
                    assert(v.deep_view() =~= Seq::<Seq<char>>::empty());
                    v
                };
                if regex_matches("^-?((cos|sin|tan|sec|cosec|cot)h?)$", lname.as_str()) == Some(true) {
                    FunctionStep::Call(FunctionCall { kind: FunctionKind::Trig, name: lname, negated: n, operands: ops })
                } else if regex_matches("^-?log$", lname.as_str()) == Some(true) {
                    FunctionStep::Call(FunctionCall { kind: FunctionKind::Log, name: lname, negated: n, operands: ops })
                } else {
                    FunctionStep::Next
                }
            },
        }
    }

    /// Moves the cursor to the next token.
    pub fn next(&mut self)
        requires
            old(self).current() is Next,
        ensures
            final(self).tokens_spec() == old(self).tokens_spec(),
            final(self).index_spec() == old(self).index_spec() + 1,
            final(self).neg_spec() == old(self).neg_spec(),
            final(self).pending_spec() is None,
    {
        assert(self.tokens.deep_view().len() == self.tokens.len());
        self.ind = self.ind + 1;
        self.pending = None;
    }

    /// Puts the value of the trigonometric function at the cursor in place of the name and
    /// its operand; the cursor stays, for the check that follows.
    pub fn resolve_trig(&mut self, out: String)
        requires
            old(self).current() matches StepSpec::Call { kind, operands, .. }
                && kind == FunctionKind::Trig && operands.len() == 1,
        ensures
            final(self).tokens_spec() == old(self).tokens_spec().remove(old(self).index_spec()).remove(
                old(self).index_spec(),
            ).insert(old(self).index_spec(), out@),
            final(self).index_spec() == old(self).index_spec(),
            old(self).current() matches StepSpec::Call { negated, operands, .. }
                && final(self).neg_spec() == negated && final(self).pending_spec() == Some(operands),
    {
        let ghost t = self.tokens.deep_view();
        proof {
            lemma_numeric_run_len(t, self.ind + 1);
            assert(t.len() == self.tokens.len());
        }
        let st = self.step();
        match st {
            FunctionStep::Call(c) => {
                self.neg = c.negated;
                self.pending = Some(c.operands);
            },
            _ => {},
        }
        self.tokens.remove(self.ind);
        self.tokens.remove(self.ind);
        self.tokens.insert(self.ind, out);
        assert(self.tokens.deep_view() =~= t.remove(self.ind as int).remove(self.ind as int).insert(self.ind as int, out@));
    }

    /// Puts the value of the logarithm at the cursor in place of the name and its operands,
    /// and moves the cursor on.
    pub fn resolve_log(&mut self, out: String)
        requires
            old(self).current() matches StepSpec::Call { kind, operands, .. }
                && kind == FunctionKind::Log && 1 <= operands.len() <= 2
                && old(self).index_spec() + 1 + operands.len() <= old(self).tokens_spec().len(),
        ensures
            old(self).current() matches StepSpec::Call { negated, operands, .. } && {
                &&& final(self).tokens_spec() == old(self).tokens_spec().take(old(self).index_spec())
                    + seq![out@] + old(self).tokens_spec().skip(old(self).index_spec() + 1 + operands.len())
                &&& final(self).neg_spec() == negated
            },
            final(self).index_spec() == old(self).index_spec() + 1,
            final(self).pending_spec() is None,
    {
        let ghost t = self.tokens.deep_view();
        assert(t.len() == self.tokens.len());
        let st = self.step();
        let mut count: usize = 0;
        match st {
            FunctionStep::Call(c) => {
                self.neg = c.negated;
                count = c.operands.len();
                assert(c.operands.deep_view().len() == c.operands.len());
            },
            _ => {},
        }
        assert(count <= 2);
        let ghost ind0 = self.ind;
        let ghost neg0 = self.neg;
        let mut k: usize = 0;
        while k <= count
            invariant
                self.ind == ind0,
                self.neg == neg0,
                count <= 2,
                k <= count + 1,
                self.ind + 1 + count <= t.len(),
                self.tokens.deep_view() == t.take(self.ind as int) + t.skip(self.ind + k),
            decreases count + 1 - k,
        {
            assert(self.tokens.deep_view().len() == self.tokens.len());
            let ghost before = self.tokens.deep_view();
            self.tokens.remove(self.ind);
            assert(self.tokens.deep_view() =~= before.remove(self.ind as int));
            assert(t.take(self.ind as int) + t.skip(self.ind + k + 1) =~= before.remove(self.ind as int));
            k = k + 1;
        }
        assert(self.tokens.deep_view().len() == self.tokens.len());
        let ghost mid = self.tokens.deep_view();
        self.tokens.insert(self.ind, out);
        assert(self.tokens.deep_view() =~= mid.insert(self.ind as int, out@));
        assert(self.tokens.deep_view() =~= t.take(self.ind as int) + seq![out@] + t.skip(self.ind + 1 + count));
        self.ind = self.ind + 1;
        self.pending = None;
    }

    /// The cursor and the number of tokens.
    pub fn position(&self) -> (r: (usize, usize))
        ensures
            r.0 == self.index_spec(),
            r.1 == self.tokens_spec().len(),
    {
        (self.ind, self.tokens.len())
    }

    /// The tokens as they stand.
    pub fn into_tokens(self) -> (r: Vec<String>)
        ensures
            r.deep_view() == self.tokens_spec(),
    {
        self.tokens
    }
}

/// A copy of the token list.
pub fn clone_tokens(v: &Vec<String>) -> (r: Vec<String>)
    ensures
        r.deep_view() == v.deep_view(),
{
    let mut out: Vec<String> = Vec::new();
    let mut i: usize = 0;
    while i < v.len()
        invariant
            i <= v.len(),
            out.deep_view() == v.deep_view().take(i as int),
        decreases v.len() - i,
    {
        let t = v[i].clone();
        assert(t@ == v.deep_view()[i as int]);
        let ghost before = out.deep_view();
        out.push(t);
        assert(out.deep_view() =~= before.push(v.deep_view()[i as int]));
        assert(v.deep_view().take(i + 1) =~= v.deep_view().take(i as int).push(v.deep_view()[i as int]));
        i = i + 1;
    }
    assert(v.deep_view().take(v.len() as int) =~= v.deep_view());
    out
}

proof fn lemma_numeric_run_len(t: Seq<Seq<char>>, start: int)
    requires
        0 <= start,
    ensures
        start + numeric_run(t, start).len() <= t.len() || numeric_run(t, start).len() == 0,
    decreases t.len() - start,
{
    if start < t.len() && numeric(t[start]) {
        lemma_numeric_run_len(t, start + 1);
    }
}

/// The numbers read from `start` on: they are the tokens there, each a number, and the
/// token after them, if any, is not one.
proof fn lemma_numeric_run_shape(t: Seq<Seq<char>>, start: int)
    requires
        0 <= start <= t.len(),
    ensures
        start + numeric_run(t, start).len() <= t.len(),
        numeric_run(t, start) == t.subrange(start, start + numeric_run(t, start).len()),
        forall|k: int| 0 <= k < numeric_run(t, start).len() ==> numeric(#[trigger] numeric_run(t, start)[k]),
        start + numeric_run(t, start).len() == t.len() || !numeric(t[start + numeric_run(t, start).len()]),
    decreases t.len() - start,
{
    if start < t.len() && numeric(t[start]) {
        lemma_numeric_run_shape(t, start + 1);
        let r = numeric_run(t, start + 1);
        assert(numeric_run(t, start) == seq![t[start]] + r);
        assert(seq![t[start]] + t.subrange(start + 1, start + 1 + r.len()) =~= t.subrange(start, start + 1 + r.len()));
        assert forall|k: int| 0 <= k < numeric_run(t, start).len() implies numeric(#[trigger] numeric_run(t, start)[k]) by {
            if k > 0 {
                assert(numeric_run(t, start)[k] == r[k - 1]);
            }
        }
    } else {
        assert(t.subrange(start, start) =~= Seq::<Seq<char>>::empty());
    }
}

/// Reading a function at the cursor: a leading `-` on the name means the value is
/// negated, the name is the rest in lowercase, and the operands are the tokens right
/// after the name, each a number, taken up to the first token that is not a number.
pub proof fn law_function_call_reads_sign_and_operands(t: Seq<Seq<char>>, ind: int, neg: bool)
    requires
        0 <= ind < t.len(),
        step_spec(t, ind, neg, None) is Call,
    ensures
        step_spec(t, ind, neg, None) matches StepSpec::Call { name, negated, operands, .. } && {
            &&& negated == (t[ind].len() > 0 && t[ind][0] == '-')
            &&& name == lowercase(if negated { t[ind].skip(1) } else { t[ind] })
            &&& ind + 1 + operands.len() <= t.len()
            &&& operands == t.subrange(ind + 1, ind + 1 + operands.len())
            &&& (forall|k: int| 0 <= k < operands.len() ==> numeric(#[trigger] operands[k]))
            &&& (operands.len() > 0 ==> ind + 1 + operands.len() == t.len() || !numeric(t[ind + 1 + operands.len()]))
        },
{
    lemma_numeric_run_shape(t, ind + 1);
    assert(t.subrange(ind + 1, ind + 1) =~= Seq::<Seq<char>>::empty());
}

} // verus!
