//! Rewriting of the raw input into space-separated tokens.

use vstd::prelude::*;
use crate::text::{
    count_of, lemma_count_concat, lemma_count_replace, lemma_count_single, char_string, concat, contains, contains_spec, from_chars, matches_at, occurs_at, replace_all, replace_spec, to_chars,
};

verus! {

/// The function names the calculator knows, in the order it treats them.
pub open spec fn funcs() -> Seq<Seq<char>> {
    seq![
        "cos"@, "sin"@, "tan"@, "sec"@, "cosec"@, "cot"@, "cosh"@, "sinh"@, "tanh"@, "sech"@,
        "cosech"@, "coth"@, "log"@,
    ]
}

/// The names of the built-in constants.
pub open spec fn const_names() -> Seq<Seq<char>> {
    seq!["e"@, "pi"@]
}

/// The opening brackets.
pub open spec fn open_brackets() -> Seq<Seq<char>> {
    seq!["("@, "{"@, "["@]
}

/// The closing brackets.
pub open spec fn close_brackets() -> Seq<Seq<char>> {
    seq![")"@, "}"@, "]"@]
}

/// The operators, in the order the evaluator applies them.
pub open spec fn operator_texts() -> Seq<Seq<char>> {
    seq!["P"@, "C"@, "%"@, "!"@, "^"@, "/"@, "*"@, "-"@, "+"@]
}

/// A rewriting rule: every occurrence of the first text becomes the second.
pub type Rule = (Seq<char>, Seq<char>);

/// The rules applied one after the other, each to the whole text.
pub open spec fn apply_rules(s: Seq<char>, rules: Seq<Rule>) -> Seq<char>
    decreases rules.len(),
{
    if rules.len() == 0 {
        s
    } else {
        replace_spec(apply_rules(s, rules.drop_last()), rules.last().0, rules.last().1)
    }
}

/// Rules that make `prefix + x` into `prefix + "*" + x` for every `x`.
pub open spec fn star_after(prefix: Seq<char>, xs: Seq<Seq<char>>) -> Seq<Rule> {
    xs.map_values(|x: Seq<char>| (prefix + x, prefix + seq!['*'] + x))
}

/// Rules that make `x + suffix` into `x + "*" + suffix` for every `x`.
pub open spec fn star_before(xs: Seq<Seq<char>>, suffix: Seq<char>) -> Seq<Rule> {
    xs.map_values(|x: Seq<char>| (x + suffix, x + seq!['*'] + suffix))
}

/// Rules that put a space on each side of every `x`.
pub open spec fn padded(xs: Seq<Seq<char>>) -> Seq<Rule> {
    xs.map_values(|x: Seq<char>| (x, seq![' '] + x + seq![' ']))
}

/// The decimal digit of a number below ten.
pub open spec fn digit_char(n: int) -> char {
    seq!['0', '1', '2', '3', '4', '5', '6', '7', '8', '9'][n]
}

/// The implicit multiplications after one digit (and before it, for closing brackets).
pub open spec fn digit_rules(n: int) -> Seq<Rule> {
    let d = seq![digit_char(n)];
    star_after(d, funcs()) + star_after(d, const_names()) + star_after(d, open_brackets())
        + star_before(close_brackets(), d)
}

/// `digit_rules` for the digits `0` to `n - 1`, in that order.
pub open spec fn digits_rules(n: int) -> Seq<Rule>
    decreases n,
{
    if n <= 0 {
        seq![]
    } else {
        digits_rules(n - 1) + digit_rules(n - 1)
    }
}

/// The implicit multiplications between brackets and each constant name.
pub open spec fn const_bracket_rules(n: int) -> Seq<Rule>
    decreases n,
{
    if n <= 0 {
        seq![]
    } else {
        let t = const_names()[n - 1];
        const_bracket_rules(n - 1) + star_before(close_brackets(), t) + star_after(t, open_brackets())
    }
}

/// The rewritings `format_inp` applies before it sets the function names apart, in order.
pub open spec fn input_rules() -> Seq<Rule> {
    seq![(" "@, ""@), ("\n"@, ""@), ("+-"@, "-"@)] + digits_rules(10) + const_bracket_rules(2)
        + padded(operator_texts())
}

/// The rewritings `format_inp` applies after it sets the function names apart: a space
/// on each side of every bracket and of `=`.
pub open spec fn bracket_rules() -> Seq<Rule> {
    padded(seq!["["@, "]"@, "{"@, "}"@, "("@, ")"@, "="@])
}

/// The length of the longest of `names` that `s` starts with, or `0` when none.
pub open spec fn longest_name(s: Seq<char>, names: Seq<Seq<char>>) -> nat
    decreases names.len(),
{
    if names.len() == 0 {
        0
    } else {
        let rest = longest_name(s, names.drop_last());
        let n = names.last();
        if n.len() > rest && n.len() <= s.len() && s.take(n.len() as int) == n {
            n.len()
        } else {
            rest
        }
    }
}

/// The names set apart as whole words: going from the left, the longest name that starts
/// at a position gets a space on each side, and the scan goes on after it (so `sinh` stays
/// one name, and its `sin` is not set apart).
pub open spec fn pad_names(s: Seq<char>, names: Seq<Seq<char>>) -> Seq<char>
    decreases s.len(),
{
    if s.len() == 0 {
        s
    } else {
        let k = longest_name(s, names);
        if 0 < k && k <= s.len() {
            seq![' '] + s.take(k as int) + seq![' '] + pad_names(s.skip(k as int), names)
        } else {
            seq![s[0]] + pad_names(s.skip(1), names)
        }
    }
}

/// The input spaced out before double spaces are squeezed (see `format_inp`).
pub open spec fn spaced_input(s: Seq<char>) -> Seq<char> {
    apply_rules(pad_names(apply_rules(s, input_rules()), funcs()), bracket_rules())
}

/// Repeatedly turns double spaces into single ones until none is left.
pub open spec fn squeeze_spaces(s: Seq<char>) -> Seq<char>
    decreases s.len(),
{
    if contains_spec(s, seq![' ', ' ']) {
        proof {
            lemma_replace_shrinks(s, seq![' ', ' '], seq![' ']);
        }
        squeeze_spaces(replace_spec(s, seq![' ', ' '], seq![' ']))
    } else {
        s
    }
}

/// Replacing a text by a shorter one never lengthens the text, and shortens it when
/// the replaced text occurs.
pub proof fn lemma_replace_shrinks(s: Seq<char>, from: Seq<char>, to: Seq<char>)
    requires
        from.len() > to.len(),
    ensures
        replace_spec(s, from, to).len() <= s.len(),
        contains_spec(s, from) ==> replace_spec(s, from, to).len() < s.len(),
    decreases s.len(),
{
    if s.len() > 0 {
        if from.len() <= s.len() && s.take(from.len() as int) == from {
            lemma_replace_shrinks(s.skip(from.len() as int), from, to);
        } else {
            lemma_replace_shrinks(s.skip(1), from, to);
            if contains_spec(s, from) {
                let i = choose|i: int| occurs_at(s, from, i);
                if i == 0 {
                    assert(s.subrange(0, from.len() as int) == s.take(from.len() as int));
                } else {
                    assert(s.skip(1).subrange(i - 1, i - 1 + from.len()) =~= s.subrange(i, i + from.len()));
                    assert(occurs_at(s.skip(1), from, i - 1));
                }
            }
        }
    } else {
        if contains_spec(s, from) {
            let i = choose|i: int| occurs_at(s, from, i);
        }
    }
}


/// An owned copy of the text.
pub fn owned(s: &str) -> (r: String)
    ensures
        r@ == s@,
{
    s.to_owned()
}

fn funcs_vec() -> (r: Vec<String>)
    ensures
        r.deep_view() == funcs(),
{
    let mut v: Vec<String> = Vec::new();
    v.push(owned("cos"));
    v.push(owned("sin"));
    v.push(owned("tan"));
    v.push(owned("sec"));
    v.push(owned("cosec"));
    v.push(owned("cot"));
    v.push(owned("cosh"));
    v.push(owned("sinh"));
    v.push(owned("tanh"));
    v.push(owned("sech"));
    v.push(owned("cosech"));
    v.push(owned("coth"));
    v.push(owned("log"));
    assert(v.deep_view() =~= funcs());
    v
}

fn const_names_vec() -> (r: Vec<String>)
    ensures
        r.deep_view() == const_names(),
{
    let mut v: Vec<String> = Vec::new();
    v.push(owned("e"));
    v.push(owned("pi"));
    assert(v.deep_view() =~= const_names());
    v
}

/// The opening brackets, as texts.
pub fn open_brackets_vec() -> (r: Vec<String>)
    ensures
        r.deep_view() == open_brackets(),
{
    let mut v: Vec<String> = Vec::new();
    v.push(owned("("));
    v.push(owned("{"));
    v.push(owned("["));
    assert(v.deep_view() =~= open_brackets());
    v
}

/// The closing brackets, as texts.
pub fn close_brackets_vec() -> (r: Vec<String>)
    ensures
        r.deep_view() == close_brackets(),
{
    let mut v: Vec<String> = Vec::new();
    v.push(owned(")"));
    v.push(owned("}"));
    v.push(owned("]"));
    assert(v.deep_view() =~= close_brackets());
    v
}

/// The operators, as texts, in the order the evaluator applies them.
pub fn operators_vec() -> (r: Vec<String>)
    ensures
        r.deep_view() == operator_texts(),
{
    let mut v: Vec<String> = Vec::new();
    v.push(owned("P"));
    v.push(owned("C"));
    v.push(owned("%"));
    v.push(owned("!"));
    v.push(owned("^"));
    v.push(owned("/"));
    v.push(owned("*"));
    v.push(owned("-"));
    v.push(owned("+"));
    assert(v.deep_view() =~= operator_texts());
    v
}

fn bracket_pad_vec() -> (r: Vec<String>)
    ensures
        r.deep_view() == seq!["["@, "]"@, "{"@, "}"@, "("@, ")"@, "="@],
{
    let mut v: Vec<String> = Vec::new();
    v.push(owned("["));
    v.push(owned("]"));
    v.push(owned("{"));
    v.push(owned("}"));
    v.push(owned("("));
    v.push(owned(")"));
    v.push(owned("="));
    assert(v.deep_view() =~= seq!["["@, "]"@, "{"@, "}"@, "("@, ")"@, "="@]);
    v
}

/// What one of the mapped rule groups turns each text into.
pub enum Shape {
    StarAfter,
    StarBefore,
    Padded,
}

/// The rules of one group (see `Shape`) for the texts `xs` around `anchor`.
pub open spec fn shaped(shape: Shape, anchor: Seq<char>, xs: Seq<Seq<char>>) -> Seq<Rule> {
    match shape {
        Shape::StarAfter => star_after(anchor, xs),
        Shape::StarBefore => star_before(xs, anchor),
        Shape::Padded => padded(xs),
    }
}

/// Appends the rules of one group to `rules`.
pub fn push_rules(rules: &mut Vec<(String, String)>, shape: Shape, anchor: &str, xs: &Vec<String>)
    ensures
        final(rules).deep_view() == old(rules).deep_view() + shaped(shape, anchor@, xs.deep_view()),
{
    let ghost start = rules.deep_view();
    let ghost target = shaped(shape, anchor@, xs.deep_view());
    let mut k: usize = 0;
    while k < xs.len()
        invariant
            k <= xs.len(),
            target == shaped(shape, anchor@, xs.deep_view()),
            target.len() == xs.len(),
            rules.deep_view() == start + target.take(k as int),
        decreases xs.len() - k,
    {
        let x = xs[k].as_str();
        let rule = match shape {
            Shape::StarAfter => (concat(anchor, x), concat(concat(anchor, "*").as_str(), x)),
            Shape::StarBefore => (concat(x, anchor), concat(concat(x, "*").as_str(), anchor)),
            Shape::Padded => (x.to_owned(), concat(concat(" ", x).as_str(), " ")),
        };
        proof {
            reveal_strlit("*");
            reveal_strlit(" ");
            assert(rule.0@ == target[k as int].0);
            assert(rule.1@ == target[k as int].1);
        }
        let ghost before = rules.deep_view();
        rules.push(rule);
        assert(rules.deep_view() =~= before.push(target[k as int]));
        assert(target.take(k as int + 1) =~= target.take(k as int).push(target[k as int]));
        k = k + 1;
    }
    assert(target.take(xs.len() as int) =~= target);
}

/// Every rewriting `format_inp` applies, in order.
fn input_rules_vec() -> (r: Vec<(String, String)>)
    ensures
        r.deep_view() == input_rules(),
{
    let mut rules: Vec<(String, String)> = Vec::new();
    rules.push((owned(" "), owned("")));
    rules.push((owned("\n"), owned("")));
    rules.push((owned("+-"), owned("-")));
    let ghost head = seq![(" "@, ""@), ("\n"@, ""@), ("+-"@, "-"@)];
    assert(rules.deep_view() =~= head);
    let funcs_v = funcs_vec();
    let consts_v = const_names_vec();
    let opens_v = open_brackets_vec();
    let closes_v = close_brackets_vec();
    let digits = ['0', '1', '2', '3', '4', '5', '6', '7', '8', '9'];
    let mut n: usize = 0;
    while n < 10
        invariant
            n <= 10,
            funcs_v.deep_view() == funcs(),
            consts_v.deep_view() == const_names(),
            opens_v.deep_view() == open_brackets(),
            closes_v.deep_view() == close_brackets(),
            digits@ == seq!['0', '1', '2', '3', '4', '5', '6', '7', '8', '9'],
            rules.deep_view() == head + digits_rules(n as int),
        decreases 10 - n,
    {
        let d = char_string(digits[n]);
        assert(d@ == seq![digit_char(n as int)]);
        let ghost before = rules.deep_view();
        push_rules(&mut rules, Shape::StarAfter, d.as_str(), &funcs_v);
        push_rules(&mut rules, Shape::StarAfter, d.as_str(), &consts_v);
        push_rules(&mut rules, Shape::StarAfter, d.as_str(), &opens_v);
        push_rules(&mut rules, Shape::StarBefore, d.as_str(), &closes_v);
        assert(rules.deep_view() =~= before + digit_rules(n as int));
        assert(digits_rules(n as int + 1) == digits_rules(n as int) + digit_rules(n as int));
        n = n + 1;
    }
    let mut c: usize = 0;
    let ghost mid = rules.deep_view();
    assert(consts_v.len() == consts_v.deep_view().len());
    while c < 2
        invariant
            c <= 2,
            opens_v.deep_view() == open_brackets(),
            closes_v.deep_view() == close_brackets(),
            consts_v.deep_view() == const_names(),
            consts_v.len() == 2,
            rules.deep_view() == mid + const_bracket_rules(c as int),
        decreases 2 - c,
    {
        let t = consts_v[c].as_str();
        assert(t@ == const_names()[c as int]);
        let ghost before = rules.deep_view();
        push_rules(&mut rules, Shape::StarBefore, t, &closes_v);
        push_rules(&mut rules, Shape::StarAfter, t, &opens_v);
        assert(rules.deep_view() =~= before + star_before(close_brackets(), const_names()[c as int])
            + star_after(const_names()[c as int], open_brackets()));
        c = c + 1;
    }
    let ops_v = operators_vec();
    push_rules(&mut rules, Shape::Padded, "", &ops_v);
    assert(rules.deep_view() =~= input_rules());
    rules
}

/// The rewritings of `bracket_rules`.
fn bracket_rules_vec() -> (r: Vec<(String, String)>)
    ensures
        r.deep_view() == bracket_rules(),
{
    let mut rules: Vec<(String, String)> = Vec::new();
    let pads_v = bracket_pad_vec();
    push_rules(&mut rules, Shape::Padded, "", &pads_v);
    assert(rules.deep_view() =~= bracket_rules());
    rules
}

/// The length of the longest of `names` that occurs in `v` at position `i` (see
/// `longest_name`).
fn longest_name_at(v: &Vec<char>, i: usize, names: &Vec<String>) -> (r: usize)
    requires
        i <= v.len(),
    ensures
        r == longest_name(v@.skip(i as int), names.deep_view()),
        r <= v.len() - i,
{
    let ghost ns = names.deep_view();
    let ghost rest = v@.skip(i as int);
    let mut best: usize = 0;
    let mut j: usize = 0;
    while j < names.len()
        invariant
            j <= names.len(),
            i <= v.len(),
            ns == names.deep_view(),
            rest == v@.skip(i as int),
            best == longest_name(rest, ns.take(j as int)),
            best <= v.len() - i,
        decreases names.len() - j,
    {
        assert(ns.take(j + 1).drop_last() =~= ns.take(j as int));
        assert(ns.take(j + 1).last() == ns[j as int]);
        let n = to_chars(names[j].as_str());
        assert(n@ == ns[j as int]);
        if n.len() > best && matches_at(v, &n, i) {
            assert(rest.take(n@.len() as int) =~= v@.subrange(i as int, i + n@.len()));
            best = n.len();
        } else {
            proof {
                if n.len() > best && n@.len() <= rest.len() && rest.take(n@.len() as int) == n@ {
                    assert(rest.take(n@.len() as int) =~= v@.subrange(i as int, i + n@.len()));
                    assert(occurs_at(v@, n@, i as int));
                }
            }
        }
        j = j + 1;
    }
    assert(ns.take(j as int) =~= ns);
    best
}

/// Sets the names apart as whole words (see `pad_names`).
pub fn pad_names_exec(s: &str, names: &Vec<String>) -> (r: String)
    ensures
        r@ == pad_names(s@, names.deep_view()),
{
    let v = to_chars(s);
    let ghost ns = names.deep_view();
    let mut out: Vec<char> = Vec::new();
    let mut i: usize = 0;
    assert(v@.skip(0) =~= v@);
    while i < v.len()
        invariant
            i <= v.len(),
            v@ == s@,
            ns == names.deep_view(),
            out@ + pad_names(v@.skip(i as int), ns) == pad_names(s@, ns),
        decreases v.len() - i,
    {
        let ghost rest = v@.skip(i as int);
        let k = longest_name_at(&v, i, names);
        let ghost before = out@;
        if k > 0 {
            out.push(' ');
            let mut t: usize = i;
            while t < i + k
                invariant
                    i <= t <= i + k,
                    i + k <= v.len(),
                    out@ == before + seq![' '] + v@.subrange(i as int, t as int),
                decreases i + k - t,
            {
                out.push(v[t]);
                assert(v@.subrange(i as int, t + 1) =~= v@.subrange(i as int, t as int).push(v@[t as int]));
                t = t + 1;
            }
            out.push(' ');
            proof {
                assert(rest.take(k as int) =~= v@.subrange(i as int, i + k));
                assert(rest.skip(k as int) =~= v@.skip(i + k));
                assert(pad_names(rest, ns) == seq![' '] + rest.take(k as int) + seq![' '] + pad_names(rest.skip(k as int), ns));
                assert(out@ =~= before + seq![' '] + rest.take(k as int) + seq![' ']);
                assert(out@ + pad_names(v@.skip(i + k), ns) =~= before + pad_names(rest, ns));
            }
            i = i + k;
        } else {
            out.push(v[i]);
            proof {
                assert(rest[0] == v@[i as int]);
                assert(rest.skip(1) =~= v@.skip(i + 1));
                assert(out@ + pad_names(v@.skip(i + 1), ns) =~= before + pad_names(rest, ns));
            }
            i = i + 1;
        }
    }
    assert(v@.skip(i as int) =~= Seq::<char>::empty());
    assert(out@ + Seq::<char>::empty() =~= out@);
    from_chars(out.as_slice())
}

/// Applies the rules in order, each to the whole text.
pub fn apply_rules_exec(s: String, rules: &Vec<(String, String)>) -> (r: String)
    ensures
        r@ == apply_rules(s@, rules.deep_view()),
{
    let mut cur = s;
    let mut k: usize = 0;
    while k < rules.len()
        invariant
            k <= rules.len(),
            cur@ == apply_rules(s@, rules.deep_view().take(k as int)),
        decreases rules.len() - k,
    {
        assert(rules.deep_view().take(k as int + 1).drop_last() =~= rules.deep_view().take(k as int));
        cur = replace_all(cur.as_str(), rules[k].0.as_str(), rules[k].1.as_str());
        k = k + 1;
    }
    assert(rules.deep_view().take(rules.len() as int) =~= rules.deep_view());
    cur
}

/// Turns every double space into a single one until none is left.
pub fn squeeze_spaces_exec(s: String) -> (r: String)
    ensures
        r@ == squeeze_spaces(s@),
{
    let mut cur = s;
    proof {
        reveal_strlit("  ");
        reveal_strlit(" ");
        assert("  "@ =~= seq![' ', ' ']);
        assert(" "@ =~= seq![' ']);
    }
    while contains(cur.as_str(), "  ")
        invariant
            squeeze_spaces(cur@) == squeeze_spaces(s@),
            "  "@ == seq![' ', ' '],
            " "@ == seq![' '],
        decreases cur@.len(),
    {
        proof {
            lemma_replace_shrinks(cur@, seq![' ', ' '], seq![' ']);
        }
        cur = replace_all(cur.as_str(), "  ", " ");
    }
    cur
}

/// The input with spaces and newlines removed, the implicit multiplications written
/// out (a digit before a function, constant or bracket, a closing bracket before a digit
/// or a constant, a constant before an opening bracket), one space around every operator,
/// every function name taken as a whole word (see `pad_names`), every bracket and `=`,
/// and no double spaces.
pub fn format_inp(inp: String) -> (r: String)
    ensures
        r@ == squeeze_spaces(spaced_input(inp@)),
{
    let rules = input_rules_vec();
    let rewritten = apply_rules_exec(inp, &rules);
    let names = funcs_vec();
    let named = pad_names_exec(rewritten.as_str(), &names);
    let brackets = bracket_rules_vec();
    let spaced = apply_rules_exec(named, &brackets);
    squeeze_spaces_exec(spaced)
}

/// The squeezed text holds no double space.
pub proof fn law_squeeze_leaves_no_double_space(s: Seq<char>)
    ensures
        !contains_spec(squeeze_spaces(s), seq![' ', ' ']),
    decreases s.len(),
{
    if contains_spec(s, seq![' ', ' ']) {
        lemma_replace_shrinks(s, seq![' ', ' '], seq![' ']);
        law_squeeze_leaves_no_double_space(replace_spec(s, seq![' ', ' '], seq![' ']));
    }
}

/// Every rule replaces a non-empty text by one that holds `c` as often.
pub open spec fn rules_keep_count(rules: Seq<Rule>, c: char) -> bool {
    forall|k: int| 0 <= k < rules.len() ==> (#[trigger] rules[k]).0.len() > 0
        && count_of(rules[k].0, c) == count_of(rules[k].1, c)
}

/// Rules that each keep the number of `c` keep it together.
pub proof fn lemma_count_rules(s: Seq<char>, rules: Seq<Rule>, c: char)
    requires
        rules_keep_count(rules, c),
    ensures
        count_of(apply_rules(s, rules), c) == count_of(s, c),
    decreases rules.len(),
{
    if rules.len() > 0 {
        assert(rules_keep_count(rules.drop_last(), c)) by {
            assert forall|k: int| 0 <= k < rules.drop_last().len() implies (#[trigger] rules.drop_last()[k]).0.len() > 0
                && count_of(rules.drop_last()[k].0, c) == count_of(rules.drop_last()[k].1, c) by {
                assert(rules.drop_last()[k] == rules[k]);
            }
        }
        lemma_count_rules(s, rules.drop_last(), c);
        assert(rules[rules.len() - 1] == rules.last());
        lemma_count_replace(apply_rules(s, rules.drop_last()), rules.last().0, rules.last().1, c);
    }
}

/// Squeezing spaces keeps the number of any other character.
pub proof fn lemma_count_squeeze(s: Seq<char>, c: char)
    requires
        c != ' ',
    ensures
        count_of(squeeze_spaces(s), c) == count_of(s, c),
    decreases s.len(),
{
    if contains_spec(s, seq![' ', ' ']) {
        lemma_replace_shrinks(s, seq![' ', ' '], seq![' ']);
        lemma_count_single(' ', c);
        lemma_count_concat(seq![' '], seq![' '], c);
        assert(seq![' '] + seq![' '] =~= seq![' ', ' ']);
        lemma_count_replace(s, seq![' ', ' '], seq![' '], c);
        lemma_count_squeeze(replace_spec(s, seq![' ', ' '], seq![' ']), c);
    }
}

/// The tokens the input is read into: the formatted text split at spaces, empty pieces
/// left out (what `create_vecs_from_str(format_inp(..), " ")` gives).
pub open spec fn input_tokens(s: Seq<char>) -> Seq<Seq<char>> {
    crate::tokens::drop_empty(crate::tokens::split_spec(squeeze_spaces(spaced_input(s)), seq![' ']))
}

} // verus!
