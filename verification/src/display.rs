//! The steps of a calculation, written out for display.

use vstd::prelude::*;
use crate::brackets::{is_close, is_open, is_string_lbrac, is_string_rbrac};
use crate::evaluate::numeric;
use crate::format::{
    lemma_count_rules, lemma_count_squeeze, rules_keep_count,
    apply_rules, apply_rules_exec, close_brackets, close_brackets_vec, open_brackets, open_brackets_vec,
    operator_texts, operators_vec, padded, push_rules, squeeze_spaces, Rule, Shape,
};
use crate::text::{
    concat, contains, contains_spec, count_of, lemma_count_concat, lemma_count_single, lemma_count_trim, same_text, trim,
    trim_spec,
};
use crate::tokens::{is_operator, is_string_numeric, is_string_operator};

verus! {

/// Consecutive repeats dropped, as `Vec::dedup` does.
pub open spec fn dedup<T>(s: Seq<T>) -> Seq<T>
    decreases s.len(),
{
    if s.len() == 0 {
        s
    } else if s.len() >= 2 && s[s.len() - 1] == s[s.len() - 2] {
        dedup(s.drop_last())
    } else {
        dedup(s.drop_last()).push(s.last())
    }
}

/// The element holds one of `+ - * / ^ ! % C P`.
pub open spec fn has_operator_char(t: Seq<char>) -> bool {
    contains_spec(t, "+"@) || contains_spec(t, "-"@) || contains_spec(t, "*"@) || contains_spec(t, "/"@)
        || contains_spec(t, "^"@) || contains_spec(t, "!"@) || contains_spec(t, "%"@)
        || contains_spec(t, "C"@) || contains_spec(t, "P"@)
}

/// How element `k` of a step is written: a polynomial expression in round brackets (bare
/// when it already stands between an opening and a closing bracket), anything else between
/// spaces. `None` where a token past the end of the step would be read.
pub open spec fn element_text(v: Seq<Seq<char>>, k: int) -> Option<Seq<char>> {
    let el = v[k];
    if has_operator_char(el) && contains_spec(el, "x"@) {
        if k > 0 && is_open(v[k - 1]) {
            if k + 1 >= v.len() {
                None
            } else if is_close(v[k + 1]) {
                Some(el)
            } else {
                Some("( "@ + el + " )"@)
            }
        } else {
            Some("( "@ + el + " )"@)
        }
    } else {
        Some(" "@ + el + " "@)
    }
}

/// The first `n` elements of a step written one after the other.
pub open spec fn raw_line(v: Seq<Seq<char>>, n: int) -> Option<Seq<char>>
    decreases n,
{
    if n <= 0 {
        Some(seq![])
    } else {
        match (raw_line(v, n - 1), element_text(v, n - 1)) {
            (Some(a), Some(b)) => Some(a + b),
            _ => None,
        }
    }
}

/// The rules that write `+ -` as `-`.
pub open spec fn sign_rules() -> Seq<Rule> {
    seq![("+ -"@, "-"@), ("+-"@, "-"@)]
}

/// The rules that write the powers two to nine of `x` as superscripts.
pub open spec fn superscript_rules() -> Seq<Rule> {
    seq![
        ("x2"@, "x²"@), ("x3"@, "x³"@), ("x4"@, "x⁴"@), ("x5"@, "x⁵"@), ("x6"@, "x⁶"@), ("x7"@, "x⁷"@),
        ("x8"@, "x⁸"@), ("x9"@, "x⁹"@),
    ]
}

/// A written step tidied: single spaces, `+ -` as `-`, trimmed, powers of `x` as superscripts.
pub open spec fn clean_line(raw: Seq<char>) -> Seq<char> {
    apply_rules(trim_spec(apply_rules(squeeze_spaces(raw), sign_rules())), superscript_rules())
}

/// How step `v` is written, or `None` where a token past its end would be read.
pub open spec fn step_line(v: Seq<Seq<char>>) -> Option<Seq<char>> {
    match raw_line(v, v.len() as int) {
        Some(raw) => Some(clean_line(raw)),
        None => None,
    }
}

/// The rules that take out spaces and brackets.
pub open spec fn mark_rules() -> Seq<Rule> {
    seq![(" "@, ""@), ("("@, ""@), (")"@, ""@), ("{"@, ""@), ("}"@, ""@), ("["@, ""@), ("]"@, ""@)]
}

/// The line without spaces and brackets, by which repeated steps are recognised.
pub open spec fn bare(s: Seq<char>) -> Seq<char> {
    apply_rules(s, mark_rules())
}

/// The first `n` steps written out, each step skipped when, without spaces and brackets,
/// it reads as the last line kept. `None` where writing a step fails.
pub open spec fn kept_lines(steps: Seq<Seq<Seq<char>>>, n: int) -> Option<Seq<Seq<char>>>
    decreases n,
{
    if n <= 0 {
        Some(seq![])
    } else {
        match (kept_lines(steps, n - 1), step_line(steps[n - 1])) {
            (Some(kept), Some(line)) => if n - 1 > 0 && kept.len() > 0 && bare(line) == bare(kept.last()) {
                Some(kept)
            } else {
                Some(kept.push(line))
            },
            _ => None,
        }
    }
}

/// Spaces around every operator and bracket, for highlighting.
pub open spec fn highlight_rules() -> Seq<Rule> {
    padded(operator_texts()) + padded(open_brackets()) + padded(close_brackets())
}

/// The lines `format_out` prints, after the leading `= `, or `None` where it fails.
pub open spec fn format_steps_spec(op_vec: Seq<Seq<Seq<char>>>) -> Option<Seq<Seq<char>>> {
    let steps = dedup(op_vec);
    match kept_lines(steps, steps.len() as int) {
        Some(kept) => Some(dedup(kept.map_values(|l: Seq<char>| apply_rules(l, highlight_rules())))),
        None => None,
    }
}

/// Whether two token lists are equal.
fn same_tokens(a: &Vec<String>, b: &Vec<String>) -> (r: bool)
    ensures
        r == (a.deep_view() == b.deep_view()),
{
    if a.len() != b.len() {
        assert(a.deep_view().len() != b.deep_view().len());
        return false;
    }
    let mut i: usize = 0;
    while i < a.len()
        invariant
            a.len() == b.len(),
            i <= a.len(),
            forall|j: int| 0 <= j < i ==> a.deep_view()[j] == b.deep_view()[j],
        decreases a.len() - i,
    {
        if !same_text(a[i].as_str(), b[i].as_str()) {
            assert(a.deep_view()[i as int] != b.deep_view()[i as int]);
            return false;
        }
        i = i + 1;
    }
    assert(a.deep_view() =~= b.deep_view());
    true
}

proof fn lemma_dedup_push<T>(s: Seq<T>, x: T)
    ensures
        dedup(s.push(x)) == if s.len() > 0 && s.last() == x { dedup(s) } else { dedup(s).push(x) },
{
    assert(s.push(x).drop_last() =~= s);
}

/// The steps without consecutive repeats.
fn dedup_steps(v: &Vec<Vec<String>>) -> (r: Vec<Vec<String>>)
    ensures
        r.deep_view() == dedup(v.deep_view()),
{
    let ghost s = v.deep_view();
    let mut out: Vec<Vec<String>> = Vec::new();
    let mut i: usize = 0;
    assert(s.take(0) =~= Seq::<Seq<Seq<char>>>::empty());
    while i < v.len()
        invariant
            i <= v.len(),
            s == v.deep_view(),
            out.deep_view() == dedup(s.take(i as int)),
            i > 0 ==> out.len() > 0 && out.deep_view().last() == s[i - 1],
        decreases v.len() - i,
    {
        proof {
            lemma_dedup_push(s.take(i as int), s[i as int]);
            assert(s.take(i + 1) =~= s.take(i as int).push(s[i as int]));
        }
        let ghost before = out.deep_view();
        if i > 0 && same_tokens(&v[i], &v[i - 1]) {
        } else {
            let mut copy: Vec<String> = Vec::new();
            let mut k: usize = 0;
            while k < v[i].len()
                invariant
                    i < v.len(),
                    k <= v[i as int].len(),
                    copy.deep_view() == v[i as int].deep_view().take(k as int),
                decreases v[i as int].len() - k,
            {
                let t = v[i][k].clone();
                let ghost cb = copy.deep_view();
                copy.push(t);
                assert(copy.deep_view() =~= cb.push(v[i as int].deep_view()[k as int]));
                assert(v[i as int].deep_view().take(k + 1) =~= v[i as int].deep_view().take(k as int).push(v[i as int].deep_view()[k as int]));
                k = k + 1;
            }
            assert(v[i as int].deep_view().take(v[i as int].len() as int) =~= v[i as int].deep_view());
            out.push(copy);
            assert(out.deep_view() =~= before.push(s[i as int]));
        }
        i = i + 1;
    }
    assert(s.take(v.len() as int) =~= s);
    out
}


fn has_operator_char_exec(t: &str) -> (r: bool)
    ensures
        r == has_operator_char(t@),
{
    contains(t, "+") || contains(t, "-") || contains(t, "*") || contains(t, "/") || contains(t, "^")
        || contains(t, "!") || contains(t, "%") || contains(t, "C") || contains(t, "P")
}

/// Element `k` of the step as it is written (see `element_text`).
fn element_text_exec(v: &Vec<String>, k: usize) -> (r: Option<String>)
    requires
        k < v.len(),
    ensures
        match r {
            Some(x) => element_text(v.deep_view(), k as int) == Some(x@),
            None => element_text(v.deep_view(), k as int) is None,
        },
{
    let ghost dv = v.deep_view();
    let el = v[k].as_str();
    assert(el@ == dv[k as int]);
    if has_operator_char_exec(el) && contains(el, "x") {
        if k > 0 && is_string_lbrac(v[k - 1].clone()) {
            assert(v[k - 1]@ == dv[k - 1]);
            if k + 1 >= v.len() {
                return None;
            }
            assert(v[k + 1]@ == dv[k + 1]);
            if is_string_rbrac(v[k + 1].clone()) {
                return Some(el.to_owned());
            }
        }
        Some(concat(concat("( ", el).as_str(), " )").as_str().to_owned())
    } else {
        Some(concat(concat(" ", el).as_str(), " ").as_str().to_owned())
    }
}

fn rules_from(pairs: &[(&str, &str)]) -> (r: Vec<(String, String)>)
    ensures
        r.deep_view() == pairs@.map_values(|p: (&str, &str)| (p.0@, p.1@)),
{
    let ghost target = pairs@.map_values(|p: (&str, &str)| (p.0@, p.1@));
    let mut out: Vec<(String, String)> = Vec::new();
    let mut i: usize = 0;
    while i < pairs.len()
        invariant
            i <= pairs.len(),
            target == pairs@.map_values(|p: (&str, &str)| (p.0@, p.1@)),
            out.deep_view() == target.take(i as int),
        decreases pairs.len() - i,
    {
        let (a, b) = pairs[i];
        let ghost before = out.deep_view();
        out.push((a.to_owned(), b.to_owned()));
        assert(out.deep_view() =~= before.push(target[i as int]));
        assert(target.take(i + 1) =~= target.take(i as int).push(target[i as int]));
        i = i + 1;
    }
    assert(target.take(pairs.len() as int) =~= target);
    out
}

/// How a step is written (see `step_line`), or `None` where no line can be written.
fn step_line_exec(v: &Vec<String>) -> (r: Option<String>)
    ensures
        match r {
            Some(x) => step_line(v.deep_view()) == Some(x@),
            None => step_line(v.deep_view()) is None,
        },
{
    let ghost dv = v.deep_view();
    let mut raw = String::new();
    let mut k: usize = 0;
    while k < v.len()
        invariant
            k <= v.len(),
            dv == v.deep_view(),
            raw_line(dv, k as int) == Some(raw@),
        decreases v.len() - k,
    {
        match element_text_exec(v, k) {
            Some(piece) => {
                raw = concat(raw.as_str(), piece.as_str());
            },
            None => {
                proof {
                    lemma_raw_line_stays_none(dv, k as int + 1, dv.len() as int);
                }
                return None;
            },
        }
        k = k + 1;
    }
    assert(dv.len() == v.len());
    let squeezed = crate::format::squeeze_spaces_exec(raw);
    let signs = rules_from(&[("+ -", "-"), ("+-", "-")]);
    assert(signs.deep_view() =~= sign_rules());
    let signed = apply_rules_exec(squeezed, &signs);
    let trimmed = trim(signed.as_str());
    let sups = rules_from(
        &[("x2", "x²"), ("x3", "x³"), ("x4", "x⁴"), ("x5", "x⁵"), ("x6", "x⁶"), ("x7", "x⁷"), ("x8", "x⁸"), ("x9", "x⁹")],
    );
    assert(sups.deep_view() =~= superscript_rules());
    Some(apply_rules_exec(trimmed, &sups))
}

proof fn lemma_raw_line_stays_none(v: Seq<Seq<char>>, n: int, m: int)
    requires
        0 <= n <= m,
        raw_line(v, n) is None,
    ensures
        raw_line(v, m) is None,
    decreases m - n,
{
    if n < m {
        lemma_raw_line_stays_none(v, n, m - 1);
    }
}

proof fn lemma_kept_stays_none(steps: Seq<Seq<Seq<char>>>, n: int, m: int)
    requires
        0 <= n <= m,
        kept_lines(steps, n) is None,
    ensures
        kept_lines(steps, m) is None,
    decreases m - n,
{
    if n < m {
        lemma_kept_stays_none(steps, n, m - 1);
    }
}

/// The line without spaces and brackets.
fn bare_exec(s: String) -> (r: String)
    ensures
        r@ == bare(s@),
{
    let marks = rules_from(&[(" ", ""), ("(", ""), (")", ""), ("{", ""), ("}", ""), ("[", ""), ("]", "")]);
    assert(marks.deep_view() =~= mark_rules());
    apply_rules_exec(s, &marks)
}

/// The lines `format_out` prints (see `format_steps_spec`), with `op_vec` freed of
/// consecutive repeated steps; `None` where no line can be written.
pub fn try_format_steps(op_vec: &mut Vec<Vec<String>>) -> (r: Option<Vec<String>>)
    ensures
        final(op_vec).deep_view() == dedup(old(op_vec).deep_view()),
        r is Some <==> format_steps_spec(old(op_vec).deep_view()) is Some,
        r matches Some(x) ==> format_steps_spec(old(op_vec).deep_view()) == Some(x.deep_view()),
{
    let deduped = dedup_steps(op_vec);
    *op_vec = deduped;
    let ghost steps = op_vec.deep_view();
    let mut kept: Vec<String> = Vec::new();
    let mut ind: usize = 0;
    while ind < op_vec.len()
        invariant
            ind <= op_vec.len(),
            steps == op_vec.deep_view(),
            steps == dedup(old(op_vec).deep_view()),
            kept_lines(steps, ind as int) == Some(kept.deep_view()),
        decreases op_vec.len() - ind,
    {
        assert(op_vec[ind as int].deep_view() == steps[ind as int]);
        let line = match step_line_exec(&op_vec[ind]) {
            Some(l) => l,
            None => {
                proof {
                    lemma_kept_stays_none(steps, ind as int + 1, steps.len() as int);
                }
                return None;
            },
        };
        let mut skip = false;
        if ind > 0 && kept.len() > 0 {
            let last = kept[kept.len() - 1].clone();
            assert(last@ == kept.deep_view().last());
            let a = bare_exec(line.clone());
            let b = bare_exec(last);
            skip = same_text(a.as_str(), b.as_str());
        }
        if !skip {
            let ghost before = kept.deep_view();
            kept.push(line);
            assert(kept.deep_view() =~= before.push(line@));
        }
        ind = ind + 1;
    }
    let mut rules: Vec<(String, String)> = Vec::new();
    let ops = operators_vec();
    let opens = open_brackets_vec();
    let closes = close_brackets_vec();
    push_rules(&mut rules, Shape::Padded, "", &ops);
    push_rules(&mut rules, Shape::Padded, "", &opens);
    push_rules(&mut rules, Shape::Padded, "", &closes);
    assert(rules.deep_view() =~= highlight_rules());
    let ghost lines = kept.deep_view().map_values(|l: Seq<char>| apply_rules(l, highlight_rules()));
    let mut out: Vec<String> = Vec::new();
    let mut j: usize = 0;
    while j < kept.len()
        invariant
            j <= kept.len(),
            rules.deep_view() == highlight_rules(),
            lines == kept.deep_view().map_values(|l: Seq<char>| apply_rules(l, highlight_rules())),
            out.deep_view() == dedup(lines.take(j as int)),
            j > 0 ==> out.len() > 0 && out.deep_view().last() == lines[j - 1],
        decreases kept.len() - j,
    {
        let h = apply_rules_exec(kept[j].clone(), &rules);
        assert(h@ == lines[j as int]);
        proof {
            lemma_dedup_push(lines.take(j as int), lines[j as int]);
            assert(lines.take(j + 1) =~= lines.take(j as int).push(lines[j as int]));
        }
        let mut repeat = false;
        if j > 0 {
            let last = out[out.len() - 1].clone();
            repeat = same_text(last.as_str(), h.as_str());
        }
        if !repeat {
            let ghost before = out.deep_view();
            out.push(h);
            assert(out.deep_view() =~= before.push(lines[j as int]));
        }
        j = j + 1;
    }
    assert(lines.take(kept.len() as int) =~= lines);
    Some(out)
}

/// The lines `format_out` prints (see `format_steps_spec`), with `op_vec` freed of
/// consecutive repeated steps.
pub fn format_steps(op_vec: &mut Vec<Vec<String>>) -> (r: Vec<String>)
    requires
        format_steps_spec(old(op_vec).deep_view()) is Some,
    ensures
        final(op_vec).deep_view() == dedup(old(op_vec).deep_view()),
        format_steps_spec(old(op_vec).deep_view()) == Some(r.deep_view()),
{
    match try_format_steps(op_vec) {
        Some(r) => r,
        None => Vec::new(),
    }
}


/// How a piece of a printed line is highlighted.
#[derive(PartialEq, Eq, Structural, Debug, Clone, Copy)]
pub enum TokenColor {
    Number,
    Bracket,
    Operator,
    Equals,
    Other,
}

/// The highlighting of a piece: numbers first, then brackets, operators, `=`, the rest.
pub open spec fn token_color_spec(t: Seq<char>) -> TokenColor {
    if numeric(t) {
        TokenColor::Number
    } else if is_open(t) || is_close(t) {
        TokenColor::Bracket
    } else if is_operator(t) {
        TokenColor::Operator
    } else if t == "="@ {
        TokenColor::Equals
    } else {
        TokenColor::Other
    }
}

/// How a piece of a printed line is highlighted (see `token_color_spec`).
pub fn token_color(el: String) -> (r: TokenColor)
    ensures
        r == token_color_spec(el@),
{
    if is_string_numeric(el.clone()) {
        TokenColor::Number
    } else if is_string_lbrac(el.clone()) || is_string_rbrac(el.clone()) {
        TokenColor::Bracket
    } else if is_string_operator(el.clone()) {
        TokenColor::Operator
    } else if same_text(el.as_str(), "=") {
        TokenColor::Equals
    } else {
        TokenColor::Other
    }
}


/// No two neighbouring lines printed for a calculation are the same, and no two
/// neighbouring steps kept in `op_vec` either.
pub proof fn law_dedup_no_adjacent_repeats<T>(s: Seq<T>)
    ensures
        forall|k: int| 0 <= k < dedup(s).len() - 1 ==> #[trigger] dedup(s)[k] != dedup(s)[k + 1],
        s.len() > 0 ==> dedup(s).len() > 0 && dedup(s).last() == s.last(),
    decreases s.len(),
{
    if s.len() > 0 {
        law_dedup_no_adjacent_repeats(s.drop_last());
        let d = dedup(s);
        let p = dedup(s.drop_last());
        if !(s.len() >= 2 && s[s.len() - 1] == s[s.len() - 2]) {
            assert forall|k: int| 0 <= k < d.len() - 1 implies #[trigger] d[k] != d[k + 1] by {
                if k < d.len() - 2 {
                    assert(d[k] == p[k] && d[k + 1] == p[k + 1]);
                } else {
                    if s.len() >= 2 {
                        assert(p.last() == s.drop_last().last());
                    }
                }
            }
        } else {
            assert(s.drop_last().last() == s.last());
        }
    }
}

/// How many `c` the first `n` tokens of a step hold together.
pub open spec fn tokens_count(v: Seq<Seq<char>>, n: int, c: char) -> nat
    decreases n,
{
    if n <= 0 {
        0
    } else {
        tokens_count(v, n - 1, c) + count_of(v[n - 1], c)
    }
}

proof fn lemma_count_text(t: Seq<char>, c: char)
    requires
        forall|k: int| 0 <= k < t.len() ==> t[k] != c,
    ensures
        count_of(t, c) == 0,
    decreases t.len(),
{
    if t.len() > 0 {
        lemma_count_text(t.skip(1), c);
    }
}

proof fn lemma_count_minus(t: Seq<char>, k: int)
    requires
        0 <= k < t.len(),
        t[k] == '-',
        forall|j: int| 0 <= j < t.len() && j != k ==> t[j] != '-',
    ensures
        count_of(t, '-') == 1,
{
    lemma_count_concat(t.take(k), t.skip(k), '-');
    assert(t.take(k) + t.skip(k) =~= t);
    lemma_count_text(t.take(k), '-');
    lemma_count_text(t.skip(k + 1), '-');
    assert(t.skip(k).skip(1) =~= t.skip(k + 1));
}

/// The rules that tidy a written line each keep the number of `-`.
proof fn lemma_line_rules_keep_minus()
    ensures
        rules_keep_count(sign_rules(), '-'),
        rules_keep_count(superscript_rules(), '-'),
{
    reveal_strlit("+ -");
    reveal_strlit("+-");
    reveal_strlit("-");
    lemma_count_minus("+ -"@, 2);
    lemma_count_minus("+-"@, 1);
    lemma_count_minus("-"@, 0);
    let sr = superscript_rules();
    reveal_strlit("x2"); reveal_strlit("x²");
    reveal_strlit("x3"); reveal_strlit("x³");
    reveal_strlit("x4"); reveal_strlit("x⁴");
    reveal_strlit("x5"); reveal_strlit("x⁵");
    reveal_strlit("x6"); reveal_strlit("x⁶");
    reveal_strlit("x7"); reveal_strlit("x⁷");
    reveal_strlit("x8"); reveal_strlit("x⁸");
    reveal_strlit("x9"); reveal_strlit("x⁹");
    assert forall|k: int| 0 <= k < sr.len() implies (#[trigger] sr[k]).0.len() > 0
        && count_of(sr[k].0, '-') == count_of(sr[k].1, '-') by {
        lemma_count_text(sr[k].0, '-');
        lemma_count_text(sr[k].1, '-');
    }
}

proof fn lemma_raw_line_count(v: Seq<Seq<char>>, n: int)
    requires
        0 <= n <= v.len(),
    ensures
        raw_line(v, n) matches Some(r) ==> count_of(r, '-') == tokens_count(v, n, '-'),
    decreases n,
{
    if n > 0 {
        lemma_raw_line_count(v, n - 1);
        let el = v[n - 1];
        reveal_strlit("( ");
        reveal_strlit(" )");
        reveal_strlit(" ");
        lemma_count_text("( "@, '-');
        lemma_count_text(" )"@, '-');
        lemma_count_text(" "@, '-');
        lemma_count_concat("( "@, el, '-');
        lemma_count_concat("( "@ + el, " )"@, '-');
        lemma_count_concat(" "@, el, '-');
        lemma_count_concat(" "@ + el, " "@, '-');
        match (raw_line(v, n - 1), element_text(v, n - 1)) {
            (Some(a), Some(b)) => {
                lemma_count_concat(a, b, '-');
            },
            _ => {},
        }
    }
}

/// Writing a step changes no sign: the written line holds exactly as many `-` as the
/// tokens of the step together (a `+ -` becomes `-`, never `+`).
pub proof fn law_step_line_keeps_minus_signs(v: Seq<Seq<char>>)
    ensures
        step_line(v) matches Some(l) ==> count_of(l, '-') == tokens_count(v, v.len() as int, '-'),
{
    lemma_raw_line_count(v, v.len() as int);
    match raw_line(v, v.len() as int) {
        Some(raw) => {
            lemma_line_rules_keep_minus();
            lemma_count_squeeze(raw, '-');
            lemma_count_rules(squeeze_spaces(raw), sign_rules(), '-');
            assert(!crate::text::whitespace('-'));
            lemma_count_trim(apply_rules(squeeze_spaces(raw), sign_rules()), '-');
            lemma_count_rules(trim_spec(apply_rules(squeeze_spaces(raw), sign_rules())), superscript_rules(), '-');
        },
        None => {},
    }
}

/// Writing out the steps: where every step can be written, lines come out; the first
/// step's line is kept, no two neighbouring lines read the same once spaces and brackets
/// are taken out, and the last line kept reads as the last step's line (so the result is
/// always shown), with at most one line per step.
pub proof fn law_kept_lines_show_each_change(steps: Seq<Seq<Seq<char>>>, n: int)
    requires
        0 <= n <= steps.len(),
        forall|i: int| 0 <= i < n ==> (#[trigger] step_line(steps[i])) is Some,
    ensures
        kept_lines(steps, n) is Some,
        kept_lines(steps, n).unwrap().len() <= n,
        forall|i: int| 0 <= i < kept_lines(steps, n).unwrap().len() - 1
            ==> bare(#[trigger] kept_lines(steps, n).unwrap()[i]) != bare(kept_lines(steps, n).unwrap()[i + 1]),
        n > 0 ==> kept_lines(steps, n).unwrap().len() > 0
            && kept_lines(steps, n).unwrap()[0] == step_line(steps[0]).unwrap()
            && bare(kept_lines(steps, n).unwrap().last()) == bare(step_line(steps[n - 1]).unwrap()),
    decreases n,
{
    if n > 0 {
        law_kept_lines_show_each_change(steps, n - 1);
        assert(step_line(steps[n - 1]) is Some);
        let kept = kept_lines(steps, n - 1).unwrap();
        let line = step_line(steps[n - 1]).unwrap();
        if n - 1 > 0 && kept.len() > 0 && bare(line) == bare(kept.last()) {
            assert(kept_lines(steps, n) == Some(kept));
        } else {
            assert(kept_lines(steps, n) == Some(kept.push(line)));
            let k2 = kept.push(line);
            assert forall|i: int| 0 <= i < k2.len() - 1 implies bare(#[trigger] k2[i]) != bare(k2[i + 1]) by {
                if i + 1 < kept.len() {
                    assert(k2[i] == kept[i]);
                    assert(k2[i + 1] == kept[i + 1]);
                } else {
                    assert(k2[i] == kept.last());
                    assert(k2[i + 1] == line);
                }
            }
            if n - 1 == 0 {
                assert(kept.len() == 0);
            } else {
                assert(k2[0] == kept[0]);
            }
        }
    }
}

} // verus!
