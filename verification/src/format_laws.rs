//! What formatting does to a digit written directly before a constant name.

use vstd::prelude::*;
use crate::format::{
    apply_rules, bracket_rules, close_brackets, const_bracket_rules, const_names, digit_char, funcs,
    input_rules, longest_name, open_brackets, operator_texts, pad_names, padded, spaced_input, squeeze_spaces,
    star_after, star_before, Rule,
};
use crate::text::{contains_spec, occurs_at, replace_spec};
use crate::tokens::{drop_empty, lemma_drop_empty_concat, lemma_split_nonempty, prefix_first, split_spec};

verus! {

/// A character that formatting a digit `d` followed by a constant name can hold
/// (spaces only once operators are set apart).
pub open spec fn plain(y: char, d: char, spaced: bool) -> bool {
    y == d || y == '*' || y == 'e' || y == 'p' || y == 'i' || (spaced && y == ' ')
}

/// Every character of `s` is plain.
pub open spec fn made_of(s: Seq<char>, d: char, spaced: bool) -> bool {
    forall|i: int| 0 <= i < s.len() ==> plain(#[trigger] s[i], d, spaced)
}

/// The text holds a character that is not plain, so it cannot occur in a plain text.
pub open spec fn blocked(x: Seq<char>, d: char, spaced: bool) -> bool {
    exists|j: int| 0 <= j < x.len() && !plain(#[trigger] x[j], d, spaced)
}

/// Every rule of the list looks for a text that cannot occur in a plain text.
pub open spec fn all_blocked(rules: Seq<Rule>, d: char, spaced: bool) -> bool {
    forall|k: int| 0 <= k < rules.len() ==> blocked(#[trigger] rules[k].0, d, spaced)
}

proof fn lemma_replace_blocked(s: Seq<char>, from: Seq<char>, to: Seq<char>, d: char, spaced: bool)
    requires
        made_of(s, d, spaced),
        blocked(from, d, spaced),
    ensures
        replace_spec(s, from, to) == s,
    decreases s.len(),
{
    let j = choose|j: int| 0 <= j < from.len() && !plain(#[trigger] from[j], d, spaced);
    if s.len() == 0 {
    } else if from.len() <= s.len() && s.take(from.len() as int) == from {
        assert(s.take(from.len() as int)[j] == s[j]);
        assert(plain(s[j], d, spaced));
    } else {
        assert(made_of(s.skip(1), d, spaced)) by {
            assert forall|i: int| 0 <= i < s.skip(1).len() implies plain(#[trigger] s.skip(1)[i], d, spaced) by {
                assert(s.skip(1)[i] == s[i + 1]);
            }
        }
        lemma_replace_blocked(s.skip(1), from, to, d, spaced);
        assert(seq![s[0]] + s.skip(1) =~= s);
    }
}

proof fn lemma_rules_blocked(s: Seq<char>, rules: Seq<Rule>, d: char, spaced: bool)
    requires
        made_of(s, d, spaced),
        all_blocked(rules, d, spaced),
    ensures
        apply_rules(s, rules) == s,
    decreases rules.len(),
{
    if rules.len() > 0 {
        assert(all_blocked(rules.drop_last(), d, spaced)) by {
            assert forall|k: int| 0 <= k < rules.drop_last().len() implies blocked(#[trigger] rules.drop_last()[k].0, d, spaced) by {
                assert(rules.drop_last()[k] == rules[k]);
            }
        }
        lemma_rules_blocked(s, rules.drop_last(), d, spaced);
        assert(rules[rules.len() - 1] == rules.last());
        lemma_replace_blocked(s, rules.last().0, rules.last().1, d, spaced);
    }
}

proof fn lemma_rules_concat(s: Seq<char>, a: Seq<Rule>, b: Seq<Rule>)
    ensures
        apply_rules(s, a + b) == apply_rules(apply_rules(s, a), b),
    decreases b.len(),
{
    if b.len() == 0 {
        assert(a + b =~= a);
    } else {
        lemma_rules_concat(s, a, b.drop_last());
        assert((a + b).drop_last() =~= a + b.drop_last());
        assert((a + b).last() == b.last());
    }
}

/// Every function name starts with `c`, `s`, `t` or `l`.
proof fn lemma_funcs_start()
    ensures
        forall|k: int| 0 <= k < funcs().len() ==> (#[trigger] funcs()[k]).len() > 0
            && (funcs()[k][0] == 'c' || funcs()[k][0] == 's' || funcs()[k][0] == 't' || funcs()[k][0] == 'l'),
{
    reveal_strlit("cos");
    reveal_strlit("sin");
    reveal_strlit("tan");
    reveal_strlit("sec");
    reveal_strlit("cosec");
    reveal_strlit("cot");
    reveal_strlit("cosh");
    reveal_strlit("sinh");
    reveal_strlit("tanh");
    reveal_strlit("sech");
    reveal_strlit("cosech");
    reveal_strlit("coth");
    reveal_strlit("log");
    let f = funcs();
    assert(f.len() == 13);
    assert forall|k: int| 0 <= k < f.len() implies (#[trigger] f[k]).len() > 0
        && (f[k][0] == 'c' || f[k][0] == 's' || f[k][0] == 't' || f[k][0] == 'l') by {
        if k == 0 { assert(f[k] == "cos"@); }
        else if k == 1 { assert(f[k] == "sin"@); }
        else if k == 2 { assert(f[k] == "tan"@); }
        else if k == 3 { assert(f[k] == "sec"@); }
        else if k == 4 { assert(f[k] == "cosec"@); }
        else if k == 5 { assert(f[k] == "cot"@); }
        else if k == 6 { assert(f[k] == "cosh"@); }
        else if k == 7 { assert(f[k] == "sinh"@); }
        else if k == 8 { assert(f[k] == "tanh"@); }
        else if k == 9 { assert(f[k] == "sech"@); }
        else if k == 10 { assert(f[k] == "cosech"@); }
        else if k == 11 { assert(f[k] == "coth"@); }
        else { assert(f[k] == "log"@); }
    }
}

/// The brackets are one character each, none of them plain.
proof fn lemma_brackets(d: char, spaced: bool)
    requires
        '0' <= d <= '9',
    ensures
        forall|k: int| 0 <= k < open_brackets().len() ==> (#[trigger] open_brackets()[k]).len() == 1
            && !plain(open_brackets()[k][0], d, spaced),
        forall|k: int| 0 <= k < close_brackets().len() ==> (#[trigger] close_brackets()[k]).len() == 1
            && !plain(close_brackets()[k][0], d, spaced),
{
    reveal_strlit("(");
    reveal_strlit("{");
    reveal_strlit("[");
    reveal_strlit(")");
    reveal_strlit("}");
    reveal_strlit("]");
    let o = open_brackets();
    let c = close_brackets();
    assert forall|k: int| 0 <= k < o.len() implies (#[trigger] o[k]).len() == 1 && !plain(o[k][0], d, spaced) by {
        if k == 0 { assert(o[k] == "("@); } else if k == 1 { assert(o[k] == "{"@); } else { assert(o[k] == "["@); }
    }
    assert forall|k: int| 0 <= k < c.len() implies (#[trigger] c[k]).len() == 1 && !plain(c[k][0], d, spaced) by {
        if k == 0 { assert(c[k] == ")"@); } else if k == 1 { assert(c[k] == "}"@); } else { assert(c[k] == "]"@); }
    }
}

/// The rules of a digit other than `d` cannot change a plain text.
proof fn lemma_other_digit_blocked(n: int, d: char, spaced: bool)
    requires
        0 <= n < 10,
        '0' <= d <= '9',
        digit_char(n) != d,
    ensures
        all_blocked(crate::format::digit_rules(n), d, spaced),
{
    let m = digit_char(n);
    crate::steps::lemma_digit_char(n);
    lemma_funcs_start();
    lemma_brackets(d, spaced);
    let r = crate::format::digit_rules(n);
    let a = star_after(seq![m], funcs());
    let b = star_after(seq![m], const_names());
    let c = star_after(seq![m], open_brackets());
    let e = star_before(close_brackets(), seq![m]);
    assert(r == a + b + c + e);
    assert forall|k: int| 0 <= k < r.len() implies blocked(#[trigger] r[k].0, d, spaced) by {
        if k < a.len() {
            let x = r[k].0;
            assert(x == seq![m] + funcs()[k]);
            assert(x[1] == funcs()[k][0]);
        } else if k < a.len() + b.len() {
            let x = r[k].0;
            assert(x == seq![m] + const_names()[k - a.len()]);
            assert(x[0] == m);
        } else if k < a.len() + b.len() + c.len() {
            let x = r[k].0;
            assert(x == seq![m] + open_brackets()[k - a.len() - b.len()]);
            assert(x[1] == open_brackets()[k - a.len() - b.len()][0]);
        } else {
            let x = r[k].0;
            let i = k - a.len() - b.len() - c.len();
            assert(x == close_brackets()[i] + seq![m]);
            assert(x[0] == close_brackets()[i][0]);
        }
    }
}

proof fn lemma_replace_missing(s: Seq<char>, from: Seq<char>, to: Seq<char>, j: int)
    requires
        0 <= j < from.len(),
        forall|i: int| 0 <= i < s.len() ==> s[i] != from[j],
    ensures
        replace_spec(s, from, to) == s,
    decreases s.len(),
{
    if s.len() == 0 {
    } else if from.len() <= s.len() && s.take(from.len() as int) == from {
        assert(s.take(from.len() as int)[j] == s[j]);
    } else {
        lemma_replace_missing(s.skip(1), from, to, j);
        assert(seq![s[0]] + s.skip(1) =~= s);
    }
}

proof fn lemma_replace_whole(s: Seq<char>, to: Seq<char>)
    requires
        s.len() > 0,
    ensures
        replace_spec(s, s, to) == to,
{
    assert(s.take(s.len() as int) =~= s);
    assert(s.skip(s.len() as int) =~= Seq::<char>::empty());
    assert(replace_spec(Seq::<char>::empty(), s, to) == Seq::<char>::empty());
    assert(to + Seq::<char>::empty() =~= to);
}

proof fn lemma_two_rules(s: Seq<char>, r1: Rule, r2: Rule)
    ensures
        apply_rules(s, seq![r1, r2]) == replace_spec(replace_spec(s, r1.0, r1.1), r2.0, r2.1),
{
    assert(seq![r1, r2].drop_last() =~= seq![r1]);
    assert(seq![r1].drop_last() =~= Seq::<Rule>::empty());
    assert(apply_rules(s, Seq::<Rule>::empty()) == s);
    assert(seq![r1].last() == r1);
    assert(apply_rules(s, seq![r1]) == replace_spec(s, r1.0, r1.1));
    assert(seq![r1, r2].last() == r2);
}

/// The rules of the digit `d` itself write `d c` as `d * c` for a constant name `c`.
proof fn lemma_own_digit(k: int, c0: Seq<char>)
    requires
        0 <= k < 10,
        c0 == "e"@ || c0 == "pi"@,
    ensures
        apply_rules(seq![digit_char(k)] + c0, crate::format::digit_rules(k)) == seq![digit_char(k), '*'] + c0,
{
    reveal_strlit("e");
    reveal_strlit("pi");
    let d = digit_char(k);
    crate::steps::lemma_digit_char(k);
    lemma_funcs_start();
    lemma_brackets(d, false);
    let s0 = seq![d] + c0;
    let s1 = seq![d, '*'] + c0;
    assert(made_of(s0, d, false));
    assert(made_of(s1, d, false));
    let a = star_after(seq![d], funcs());
    let b = star_after(seq![d], const_names());
    let c = star_after(seq![d], open_brackets());
    let e = star_before(close_brackets(), seq![d]);
    assert(crate::format::digit_rules(k) == a + b + c + e);
    assert(all_blocked(a, d, false)) by {
        assert forall|i: int| 0 <= i < a.len() implies blocked(#[trigger] a[i].0, d, false) by {
            assert(a[i].0[1] == funcs()[i][0]);
        }
    }
    assert(all_blocked(c, d, false)) by {
        assert forall|i: int| 0 <= i < c.len() implies blocked(#[trigger] c[i].0, d, false) by {
            assert(c[i].0[1] == open_brackets()[i][0]);
        }
    }
    assert(all_blocked(e, d, false)) by {
        assert forall|i: int| 0 <= i < e.len() implies blocked(#[trigger] e[i].0, d, false) by {
            assert(e[i].0[0] == close_brackets()[i][0]);
        }
    }
    lemma_rules_concat(s0, a + b + c, e);
    lemma_rules_concat(s0, a + b, c);
    lemma_rules_concat(s0, a, b);
    lemma_rules_blocked(s0, a, d, false);
    let r1 = (seq![d] + "e"@, seq![d] + seq!['*'] + "e"@);
    let r2 = (seq![d] + "pi"@, seq![d] + seq!['*'] + "pi"@);
    assert(b =~= seq![r1, r2]);
    lemma_two_rules(s0, r1, r2);
    if c0 == "e"@ {
        assert(r1.0 == s0);
        lemma_replace_whole(s0, r1.1);
        assert(r1.1 =~= s1);
        assert(r2.0[1] == 'p');
        lemma_replace_missing(s1, r2.0, r2.1, 1);
    } else {
        assert(r1.0[1] == 'e');
        lemma_replace_missing(s0, r1.0, r1.1, 1);
        assert(r2.0 == s0);
        lemma_replace_whole(s0, r2.1);
        assert(r2.1 =~= s1);
    }
    lemma_rules_blocked(s1, c, d, false);
    lemma_rules_blocked(s1, e, d, false);
}

/// Through the rules of all digits below `n`, `d c` stays as it is until the digit `d`
/// is reached, and is `d * c` after it.
proof fn lemma_digits(k: int, c0: Seq<char>, n: int)
    requires
        0 <= k < 10,
        0 <= n <= 10,
        c0 == "e"@ || c0 == "pi"@,
    ensures
        apply_rules(seq![digit_char(k)] + c0, crate::format::digits_rules(n))
            == (if n > k { seq![digit_char(k), '*'] + c0 } else { seq![digit_char(k)] + c0 }),
    decreases n,
{
    reveal_strlit("e");
    reveal_strlit("pi");
    let d = digit_char(k);
    let s0 = seq![d] + c0;
    let s1 = seq![d, '*'] + c0;
    crate::steps::lemma_digit_char(k);
    if n == 0 {
        assert(crate::format::digits_rules(0) == Seq::<Rule>::empty());
    } else {
        lemma_digits(k, c0, n - 1);
        lemma_rules_concat(s0, crate::format::digits_rules(n - 1), crate::format::digit_rules(n - 1));
        if n - 1 == k {
            lemma_own_digit(k, c0);
        } else {
            crate::steps::lemma_digit_char(n - 1);
            assert(digit_char(n - 1) != d);
            lemma_other_digit_blocked(n - 1, d, false);
            assert(made_of(s0, d, false));
            assert(made_of(s1, d, false));
            if n - 1 < k {
                lemma_rules_blocked(s0, crate::format::digit_rules(n - 1), d, false);
            } else {
                lemma_rules_blocked(s1, crate::format::digit_rules(n - 1), d, false);
            }
        }
    }
}

proof fn lemma_blocked_concat(a: Seq<Rule>, b: Seq<Rule>, d: char, spaced: bool)
    requires
        all_blocked(a, d, spaced),
        all_blocked(b, d, spaced),
    ensures
        all_blocked(a + b, d, spaced),
{
    assert forall|k: int| 0 <= k < (a + b).len() implies blocked(#[trigger] (a + b)[k].0, d, spaced) by {
        if k < a.len() {
            assert((a + b)[k] == a[k]);
        } else {
            assert((a + b)[k] == b[k - a.len()]);
        }
    }
}

proof fn lemma_const_bracket_blocked(n: int, d: char, spaced: bool)
    requires
        0 <= n <= 2,
        '0' <= d <= '9',
    ensures
        all_blocked(const_bracket_rules(n), d, spaced),
    decreases n,
{
    if n > 0 {
        lemma_const_bracket_blocked(n - 1, d, spaced);
        lemma_brackets(d, spaced);
        let t = const_names()[n - 1];
        let b = star_before(close_brackets(), t);
        let a = star_after(t, open_brackets());
        assert(all_blocked(b, d, spaced)) by {
            assert forall|i: int| 0 <= i < b.len() implies blocked(#[trigger] b[i].0, d, spaced) by {
                assert(b[i].0[0] == close_brackets()[i][0]);
            }
        }
        assert(all_blocked(a, d, spaced)) by {
            assert forall|i: int| 0 <= i < a.len() implies blocked(#[trigger] a[i].0, d, spaced) by {
                assert(a[i].0[t.len() as int] == open_brackets()[i][0]);
            }
        }
        lemma_blocked_concat(const_bracket_rules(n - 1), b, d, spaced);
        lemma_blocked_concat(const_bracket_rules(n - 1) + b, a, d, spaced);
    }
}

proof fn lemma_replace_single(a: Seq<char>, x: char, b: Seq<char>, to: Seq<char>)
    requires
        forall|i: int| 0 <= i < a.len() ==> a[i] != x,
        forall|i: int| 0 <= i < b.len() ==> b[i] != x,
    ensures
        replace_spec(a + seq![x] + b, seq![x], to) == a + to + b,
    decreases a.len(),
{
    let s = a + seq![x] + b;
    if a.len() == 0 {
        assert(s =~= seq![x] + b);
        assert(s.take(1) =~= seq![x]);
        assert(s.skip(1) =~= b);
        lemma_replace_missing(b, seq![x], to, 0);
        assert(a + to + b =~= to + b);
    } else {
        lemma_replace_single(a.skip(1), x, b, to);
        assert(s.take(1) != seq![x]) by {
            assert(s.take(1)[0] == a[0]);
        }
        assert(s.skip(1) =~= a.skip(1) + seq![x] + b);
        assert(seq![s[0]] + (a.skip(1) + to + b) =~= a + to + b);
    }
}

/// Setting the operators apart turns `d * c` into `d  *  c` with single spaces.
proof fn lemma_operators(d: char, c0: Seq<char>)
    requires
        '0' <= d <= '9',
        c0 == "e"@ || c0 == "pi"@,
    ensures
        apply_rules(seq![d, '*'] + c0, padded(operator_texts())) == seq![d, ' ', '*', ' '] + c0,
{
    reveal_strlit("e");
    reveal_strlit("pi");
    reveal_strlit("P"); reveal_strlit("C"); reveal_strlit("%"); reveal_strlit("!"); reveal_strlit("^");
    reveal_strlit("/"); reveal_strlit("*"); reveal_strlit("-"); reveal_strlit("+");
    let ops = operator_texts();
    let p = padded(ops);
    let s1 = seq![d, '*'] + c0;
    assert(made_of(s1, d, false));
    assert(p =~= p.take(6) + seq![p[6]] + p.skip(7));
    assert(all_blocked(p.take(6), d, false)) by {
        assert forall|i: int| 0 <= i < p.take(6).len() implies blocked(#[trigger] p.take(6)[i].0, d, false) by {
            assert(p.take(6)[i].0 == ops[i]);
            assert(ops[i].len() == 1);
            assert(!plain(ops[i][0], d, false));
        }
    }
    assert(all_blocked(p.skip(7), d, false)) by {
        assert forall|i: int| 0 <= i < p.skip(7).len() implies blocked(#[trigger] p.skip(7)[i].0, d, false) by {
            assert(p.skip(7)[i].0 == ops[i + 7]);
            assert(ops[i + 7].len() == 1);
            assert(!plain(ops[i + 7][0], d, false));
        }
    }
    lemma_rules_concat(s1, p.take(6) + seq![p[6]], p.skip(7));
    lemma_rules_concat(s1, p.take(6), seq![p[6]]);
    lemma_rules_blocked(s1, p.take(6), d, false);
    assert(seq![p[6]].drop_last() =~= Seq::<Rule>::empty());
    assert(apply_rules(s1, Seq::<Rule>::empty()) == s1);
    assert(p[6] == (seq!['*'], seq![' ', '*', ' ']));
    assert(s1 =~= seq![d] + seq!['*'] + c0);
    lemma_replace_single(seq![d], '*', c0, seq![' ', '*', ' ']);
    let s2 = seq![d, ' ', '*', ' '] + c0;
    assert(seq![d] + seq![' ', '*', ' '] + c0 =~= s2);
    assert(made_of(s2, d, true));
    lemma_rules_blocked(s2, p.skip(7), d, true);
    assert(all_blocked(p.skip(7), d, true)) by {
        assert forall|i: int| 0 <= i < p.skip(7).len() implies blocked(#[trigger] p.skip(7)[i].0, d, true) by {
            assert(p.skip(7)[i].0 == ops[i + 7]);
            assert(!plain(ops[i + 7][0], d, true));
        }
    }
}

proof fn lemma_no_name_starts(t: Seq<char>, names: Seq<Seq<char>>, d: char)
    requires
        made_of(t, d, true),
        '0' <= d <= '9',
        forall|k: int| 0 <= k < names.len() ==> (#[trigger] names[k]).len() > 0
            && (names[k][0] == 'c' || names[k][0] == 's' || names[k][0] == 't' || names[k][0] == 'l'),
    ensures
        longest_name(t, names) == 0,
    decreases names.len(),
{
    if names.len() > 0 {
        assert forall|k: int| 0 <= k < names.drop_last().len() implies (#[trigger] names.drop_last()[k]).len() > 0
            && (names.drop_last()[k][0] == 'c' || names.drop_last()[k][0] == 's' || names.drop_last()[k][0] == 't'
            || names.drop_last()[k][0] == 'l') by {
            assert(names.drop_last()[k] == names[k]);
        }
        lemma_no_name_starts(t, names.drop_last(), d);
        let n = names.last();
        assert(n == names[names.len() - 1]);
        if n.len() <= t.len() && t.take(n.len() as int) == n {
            assert(t.take(n.len() as int)[0] == t[0]);
            assert(plain(t[0], d, true));
        }
    }
}

proof fn lemma_pad_plain(t: Seq<char>, d: char)
    requires
        made_of(t, d, true),
        '0' <= d <= '9',
    ensures
        pad_names(t, funcs()) == t,
    decreases t.len(),
{
    if t.len() > 0 {
        lemma_funcs_start();
        lemma_no_name_starts(t, funcs(), d);
        assert(made_of(t.skip(1), d, true)) by {
            assert forall|i: int| 0 <= i < t.skip(1).len() implies plain(#[trigger] t.skip(1)[i], d, true) by {
                assert(t.skip(1)[i] == t[i + 1]);
            }
        }
        lemma_pad_plain(t.skip(1), d);
        assert(seq![t[0]] + t.skip(1) =~= t);
    }
}

proof fn lemma_split_word(a: Seq<char>, b: Seq<char>)
    requires
        forall|i: int| 0 <= i < a.len() ==> a[i] != ' ',
    ensures
        split_spec(a + b, seq![' ']) == prefix_first(a, split_spec(b, seq![' '])),
    decreases a.len(),
{
    lemma_split_nonempty(b, seq![' ']);
    let r = split_spec(b, seq![' ']);
    if a.len() == 0 {
        assert(a + b =~= b);
        assert(prefix_first(a, r) =~= r) by {
            assert(a + r[0] =~= r[0]);
        }
    } else {
        lemma_split_word(a.skip(1), b);
        let s = a + b;
        assert(s.take(1) != seq![' ']) by {
            assert(s.take(1)[0] == a[0]);
        }
        assert(s.skip(1) =~= a.skip(1) + b);
        let r1 = prefix_first(a.skip(1), r);
        assert(split_spec(s, seq![' ']) == r1.update(0, seq![s[0]] + r1[0]));
        assert(seq![a[0]] + (a.skip(1) + r[0]) =~= a + r[0]);
        assert(r1.update(0, seq![s[0]] + r1[0]) =~= prefix_first(a, r));
    }
}

proof fn lemma_split_space(b: Seq<char>)
    ensures
        split_spec(seq![' '] + b, seq![' ']) == seq![Seq::<char>::empty()] + split_spec(b, seq![' ']),
{
    let s = seq![' '] + b;
    assert(s.take(1) =~= seq![' ']);
    assert(s.skip(1) =~= b);
}

/// What formatting gives for the text `d c`, a digit before a constant name.
proof fn lemma_spaced(k: int, c0: Seq<char>)
    requires
        0 <= k < 10,
        c0 == "e"@ || c0 == "pi"@,
    ensures
        squeeze_spaces(spaced_input(seq![digit_char(k)] + c0)) == seq![digit_char(k), ' ', '*', ' '] + c0,
{
    reveal_strlit("e");
    reveal_strlit("pi");
    reveal_strlit(" "); reveal_strlit("\n"); reveal_strlit("+-"); reveal_strlit("-"); reveal_strlit("");
    let d = digit_char(k);
    crate::steps::lemma_digit_char(k);
    let s0 = seq![d] + c0;
    let s1 = seq![d, '*'] + c0;
    let s2 = seq![d, ' ', '*', ' '] + c0;
    let head = seq![(" "@, ""@), ("\n"@, ""@), ("+-"@, "-"@)];
    assert(input_rules() == head + crate::format::digits_rules(10) + const_bracket_rules(2) + padded(operator_texts()));
    assert(made_of(s0, d, false));
    assert(all_blocked(head, d, false)) by {
        assert(head[0].0[0] == ' ');
        assert(head[1].0[0] == '\n');
        assert(head[2].0[0] == '+');
        assert forall|i: int| 0 <= i < head.len() implies blocked(#[trigger] head[i].0, d, false) by {
            assert(!plain(head[i].0[0], d, false));
        }
    }
    lemma_rules_concat(s0, head + crate::format::digits_rules(10) + const_bracket_rules(2), padded(operator_texts()));
    lemma_rules_concat(s0, head + crate::format::digits_rules(10), const_bracket_rules(2));
    lemma_rules_concat(s0, head, crate::format::digits_rules(10));
    lemma_rules_blocked(s0, head, d, false);
    lemma_digits(k, c0, 10);
    assert(made_of(s1, d, false));
    lemma_const_bracket_blocked(2, d, false);
    lemma_rules_blocked(s1, const_bracket_rules(2), d, false);
    lemma_operators(d, c0);
    assert(apply_rules(s0, input_rules()) == s2);
    assert(made_of(s2, d, true));
    lemma_pad_plain(s2, d);
    reveal_strlit("["); reveal_strlit("]"); reveal_strlit("{"); reveal_strlit("}");
    reveal_strlit("("); reveal_strlit(")"); reveal_strlit("=");
    let br = bracket_rules();
    assert(all_blocked(br, d, true)) by {
        assert forall|i: int| 0 <= i < br.len() implies blocked(#[trigger] br[i].0, d, true) by {
            assert(br[i].0.len() == 1);
            assert(!plain(br[i].0[0], d, true));
        }
    }
    lemma_rules_blocked(s2, br, d, true);
    assert(spaced_input(s0) == s2);
    assert(!contains_spec(s2, seq![' ', ' '])) by {
        if contains_spec(s2, seq![' ', ' ']) {
            let i = choose|i: int| occurs_at(s2, seq![' ', ' '], i);
            assert(s2.subrange(i, i + 2)[0] == s2[i]);
            assert(s2.subrange(i, i + 2)[1] == s2[i + 1]);
            assert(s2[i] == ' ' && s2[i + 1] == ' ');
            if i >= 4 {
                assert(s2[i] == c0[i - 4]);
            } else if i == 3 {
                assert(s2[4] == c0[0]);
            }
        }
    }
}

/// A digit written directly before a constant name is a multiplication: for every digit
/// `d` and constant name `c`, the text `dc` is read as the three tokens `d`, `*` and `c`
/// (so `2pi` is `2 * pi`).
pub proof fn law_digit_before_constant_multiplies(d: char, c: Seq<char>)
    requires
        '0' <= d <= '9',
        c == "e"@ || c == "pi"@,
    ensures
        crate::format::input_tokens(seq![d] + c) == seq![seq![d], seq!['*'], c],
{
    reveal_strlit("e");
    reveal_strlit("pi");
    let k = d as int - '0' as int;
    crate::steps::lemma_digit_char(k);
    assert(digit_char(k) == d) by {
        let ds = seq!['0', '1', '2', '3', '4', '5', '6', '7', '8', '9'];
        assert(digit_char(k) as int == d as int);
    }
    lemma_spaced(k, c);
    let s2 = seq![d, ' ', '*', ' '] + c;
    let e = Seq::<char>::empty();
    lemma_split_word(c, e);
    assert(c + e =~= c);
    assert(split_spec(e, seq![' ']) == seq![e]);
    assert(prefix_first(c, seq![e]) =~= seq![c]);
    let r3 = seq![c];
    lemma_split_space(c);
    assert(seq![' '] + c =~= seq![' '] + c);
    lemma_split_word(seq!['*'], seq![' '] + c);
    assert(prefix_first(seq!['*'], seq![e] + r3) =~= seq![seq!['*'], c]);
    lemma_split_space(seq!['*'] + (seq![' '] + c));
    lemma_split_word(seq![d], seq![' '] + (seq!['*'] + (seq![' '] + c)));
    assert(seq![d] + (seq![' '] + (seq!['*'] + (seq![' '] + c))) =~= s2);
    assert(seq!['*'] + (seq![' '] + c) =~= seq!['*'] + (seq![' '] + c));
    let pieces = seq![seq![d], seq!['*'], c];
    assert(prefix_first(seq![d], seq![e] + seq![seq!['*'], c]) =~= pieces);
    assert(split_spec(s2, seq![' ']) == pieces);
    assert(drop_empty(pieces) == pieces) by {
        assert(pieces.skip(1) =~= seq![seq!['*'], c]);
        assert(pieces.skip(1).skip(1) =~= seq![c]);
        assert(seq![c].skip(1) =~= Seq::<Seq<char>>::empty());
        assert(drop_empty(Seq::<Seq<char>>::empty()) == Seq::<Seq<char>>::empty());
        assert(drop_empty(seq![c]) =~= seq![c]);
        assert(drop_empty(seq![seq!['*'], c]) =~= seq![seq!['*'], c]);
    }
}

/// Every character of `s` is in `a`.
pub open spec fn made_in(s: Seq<char>, a: Set<char>) -> bool {
    forall|i: int| 0 <= i < s.len() ==> a.contains(#[trigger] s[i])
}

/// The text holds a character outside `a`, so it cannot occur in a text made in `a`.
pub open spec fn blocked_in(x: Seq<char>, a: Set<char>) -> bool {
    exists|j: int| 0 <= j < x.len() && !a.contains(#[trigger] x[j])
}

/// Every rule of the list looks for a text that cannot occur in a text made in `a`.
pub open spec fn all_blocked_in(rules: Seq<Rule>, a: Set<char>) -> bool {
    forall|k: int| 0 <= k < rules.len() ==> blocked_in(#[trigger] rules[k].0, a)
}

proof fn lemma_replace_blocked_in(s: Seq<char>, from: Seq<char>, to: Seq<char>, a: Set<char>)
    requires
        made_in(s, a),
        blocked_in(from, a),
    ensures
        replace_spec(s, from, to) == s,
{
    let j = choose|j: int| 0 <= j < from.len() && !a.contains(#[trigger] from[j]);
    lemma_replace_missing(s, from, to, j);
}

proof fn lemma_rules_blocked_in(s: Seq<char>, rules: Seq<Rule>, a: Set<char>)
    requires
        made_in(s, a),
        all_blocked_in(rules, a),
    ensures
        apply_rules(s, rules) == s,
    decreases rules.len(),
{
    if rules.len() > 0 {
        assert(all_blocked_in(rules.drop_last(), a)) by {
            assert forall|k: int| 0 <= k < rules.drop_last().len() implies blocked_in(#[trigger] rules.drop_last()[k].0, a) by {
                assert(rules.drop_last()[k] == rules[k]);
            }
        }
        lemma_rules_blocked_in(s, rules.drop_last(), a);
        assert(rules[rules.len() - 1] == rules.last());
        lemma_replace_blocked_in(s, rules.last().0, rules.last().1, a);
    }
}

/// In a group of rules where only rule `j0` finds anything, applying the group is
/// applying that rule.
proof fn lemma_fire(sa: Seq<char>, sb: Seq<char>, g: Seq<Rule>, j0: int, a0: Set<char>, a1: Set<char>)
    requires
        0 <= j0 < g.len(),
        made_in(sa, a0),
        forall|k: int| 0 <= k < j0 ==> blocked_in(#[trigger] g[k].0, a0),
        replace_spec(sa, g[j0].0, g[j0].1) == sb,
        made_in(sb, a1),
        forall|k: int| j0 < k < g.len() ==> blocked_in(#[trigger] g[k].0, a1),
    ensures
        apply_rules(sa, g) == sb,
{
    let before = g.take(j0);
    let after = g.skip(j0 + 1);
    assert(g =~= before + seq![g[j0]] + after);
    lemma_rules_concat(sa, before + seq![g[j0]], after);
    lemma_rules_concat(sa, before, seq![g[j0]]);
    assert(all_blocked_in(before, a0)) by {
        assert forall|k: int| 0 <= k < before.len() implies blocked_in(#[trigger] before[k].0, a0) by {
            assert(before[k] == g[k]);
        }
    }
    lemma_rules_blocked_in(sa, before, a0);
    assert(seq![g[j0]].drop_last() =~= Seq::<Rule>::empty());
    assert(apply_rules(sa, Seq::<Rule>::empty()) == sa);
    assert(seq![g[j0]].last() == g[j0]);
    assert(all_blocked_in(after, a1)) by {
        assert forall|k: int| 0 <= k < after.len() implies blocked_in(#[trigger] after[k].0, a1) by {
            assert(after[k] == g[k + j0 + 1]);
        }
    }
    lemma_rules_blocked_in(sb, after, a1);
}

proof fn lemma_texts()
    ensures
        open_brackets() == seq![seq!['('], seq!['{'], seq!['[']],
        close_brackets() == seq![seq![')'], seq!['}'], seq![']']],
        const_names() == seq![seq!['e'], seq!['p', 'i']],
        operator_texts() == seq![seq!['P'], seq!['C'], seq!['%'], seq!['!'], seq!['^'], seq!['/'], seq!['*'], seq!['-'], seq!['+']],
        bracket_rules() == padded(seq![seq!['['], seq![']'], seq!['{'], seq!['}'], seq!['('], seq![')'], seq!['=']]),
{
    reveal_strlit("("); reveal_strlit("{"); reveal_strlit("[");
    reveal_strlit(")"); reveal_strlit("}"); reveal_strlit("]"); reveal_strlit("=");
    reveal_strlit("e"); reveal_strlit("pi");
    reveal_strlit("P"); reveal_strlit("C"); reveal_strlit("%"); reveal_strlit("!"); reveal_strlit("^");
    reveal_strlit("/"); reveal_strlit("*"); reveal_strlit("-"); reveal_strlit("+");
    assert(open_brackets() =~~= seq![seq!['('], seq!['{'], seq!['[']]);
    assert(close_brackets() =~~= seq![seq![')'], seq!['}'], seq![']']]);
    assert(const_names() =~~= seq![seq!['e'], seq!['p', 'i']]);
    assert(operator_texts() =~~= seq![seq!['P'], seq!['C'], seq!['%'], seq!['!'], seq!['^'], seq!['/'], seq!['*'], seq!['-'], seq!['+']]);
    assert(seq!["["@, "]"@, "{"@, "}"@, "("@, ")"@, "="@] =~~= seq![seq!['['], seq![']'], seq!['{'], seq!['}'], seq!['('], seq![')'], seq!['=']]);
}

/// The sets of characters the text may hold at each stage do not hold the letters and
/// signs that the other rules look for.
pub open spec fn quiet(a: Set<char>) -> bool {
    &&& !a.contains('c') && !a.contains('s') && !a.contains('t') && !a.contains('l')
    &&& !a.contains('e') && !a.contains('p')
    &&& !a.contains('\n') && !a.contains('+') && !a.contains('P') && !a.contains('C') && !a.contains('%')
    &&& !a.contains('!') && !a.contains('^') && !a.contains('/') && !a.contains('-') && !a.contains('=')
}

proof fn lemma_other_digit_blocked_in(n: int, a: Set<char>)
    requires
        0 <= n < 10,
        !a.contains(digit_char(n)),
    ensures
        all_blocked_in(crate::format::digit_rules(n), a),
{
    let m = digit_char(n);
    lemma_funcs_start();
    lemma_texts();
    let r = crate::format::digit_rules(n);
    let f = star_after(seq![m], funcs());
    let k = star_after(seq![m], const_names());
    let o = star_after(seq![m], open_brackets());
    let c = star_before(close_brackets(), seq![m]);
    assert(r == f + k + o + c);
    assert forall|i: int| 0 <= i < r.len() implies blocked_in(#[trigger] r[i].0, a) by {
        if i < f.len() {
            assert(r[i].0 == seq![m] + funcs()[i]);
            assert(r[i].0[0] == m);
        } else if i < f.len() + k.len() {
            assert(r[i].0 == seq![m] + const_names()[i - f.len()]);
            assert(r[i].0[0] == m);
        } else if i < f.len() + k.len() + o.len() {
            assert(r[i].0[0] == m);
        } else {
            let j = i - f.len() - k.len() - o.len();
            assert(r[i].0 == close_brackets()[j] + seq![m]);
            assert(r[i].0[1] == m);
        }
    }
}

proof fn lemma_digits_gen(k: int, s0: Seq<char>, s1: Seq<char>, a0: Set<char>, a1: Set<char>, n: int)
    requires
        0 <= k < 10,
        0 <= n <= 10,
        made_in(s0, a0),
        made_in(s1, a1),
        apply_rules(s0, crate::format::digit_rules(k)) == s1,
        forall|m: int| 0 <= m < 10 && m != k ==> !a0.contains(#[trigger] digit_char(m)) && !a1.contains(digit_char(m)),
    ensures
        apply_rules(s0, crate::format::digits_rules(n)) == (if n > k { s1 } else { s0 }),
    decreases n,
{
    if n == 0 {
        assert(crate::format::digits_rules(0) == Seq::<Rule>::empty());
    } else {
        lemma_digits_gen(k, s0, s1, a0, a1, n - 1);
        lemma_rules_concat(s0, crate::format::digits_rules(n - 1), crate::format::digit_rules(n - 1));
        if n - 1 != k {
            lemma_other_digit_blocked_in(n - 1, a0);
            lemma_other_digit_blocked_in(n - 1, a1);
            if n - 1 < k {
                lemma_rules_blocked_in(s0, crate::format::digit_rules(n - 1), a0);
            } else {
                lemma_rules_blocked_in(s1, crate::format::digit_rules(n - 1), a1);
            }
        }
    }
}

proof fn lemma_const_bracket_blocked_in(n: int, a: Set<char>)
    requires
        0 <= n <= 2,
        quiet(a),
    ensures
        all_blocked_in(const_bracket_rules(n), a),
    decreases n,
{
    if n > 0 {
        lemma_const_bracket_blocked_in(n - 1, a);
        lemma_texts();
        let t = const_names()[n - 1];
        let b = star_before(close_brackets(), t);
        let o = star_after(t, open_brackets());
        let prev = const_bracket_rules(n - 1);
        assert(t[0] == 'e' || t[0] == 'p');
        assert forall|i: int| 0 <= i < (prev + b + o).len() implies blocked_in(#[trigger] (prev + b + o)[i].0, a) by {
            if i < prev.len() {
                assert((prev + b + o)[i] == prev[i]);
            } else if i < prev.len() + b.len() {
                let x = (prev + b + o)[i].0;
                assert(x == close_brackets()[i - prev.len()] + t);
                assert(x[1] == t[0]);
            } else {
                let x = (prev + b + o)[i].0;
                assert(x == t + open_brackets()[i - prev.len() - b.len()]);
                assert(x[0] == t[0]);
            }
        }
    }
}

proof fn lemma_no_name_starts_in(t: Seq<char>, names: Seq<Seq<char>>, a: Set<char>)
    requires
        made_in(t, a),
        quiet(a),
        forall|k: int| 0 <= k < names.len() ==> (#[trigger] names[k]).len() > 0
            && (names[k][0] == 'c' || names[k][0] == 's' || names[k][0] == 't' || names[k][0] == 'l'),
    ensures
        longest_name(t, names) == 0,
    decreases names.len(),
{
    if names.len() > 0 {
        assert forall|k: int| 0 <= k < names.drop_last().len() implies (#[trigger] names.drop_last()[k]).len() > 0
            && (names.drop_last()[k][0] == 'c' || names.drop_last()[k][0] == 's' || names.drop_last()[k][0] == 't'
            || names.drop_last()[k][0] == 'l') by {
            assert(names.drop_last()[k] == names[k]);
        }
        lemma_no_name_starts_in(t, names.drop_last(), a);
        let n = names.last();
        assert(n == names[names.len() - 1]);
        if n.len() <= t.len() && t.take(n.len() as int) == n {
            assert(t.take(n.len() as int)[0] == t[0]);
            assert(a.contains(t[0]));
        }
    }
}

proof fn lemma_pad_in(t: Seq<char>, a: Set<char>)
    requires
        made_in(t, a),
        quiet(a),
    ensures
        pad_names(t, funcs()) == t,
    decreases t.len(),
{
    if t.len() > 0 {
        lemma_funcs_start();
        lemma_no_name_starts_in(t, funcs(), a);
        assert(made_in(t.skip(1), a)) by {
            assert forall|i: int| 0 <= i < t.skip(1).len() implies a.contains(#[trigger] t.skip(1)[i]) by {
                assert(t.skip(1)[i] == t[i + 1]);
            }
        }
        lemma_pad_in(t.skip(1), a);
        assert(seq![t[0]] + t.skip(1) =~= t);
    }
}

/// The steps a digit and a bracket written next to each other go through, as a whole:
/// the rewriting rules turn `s0` into `s2`, the brackets are set apart into `s3`, and
/// double spaces squeezed make `s4`.
proof fn lemma_pipeline(s0: Seq<char>, s1: Seq<char>, s2: Seq<char>, s3: Seq<char>, k: int,
    a0: Set<char>, a1: Set<char>, a2: Set<char>, jb: int)
    requires
        0 <= k < 10,
        quiet(a0),
        quiet(a1),
        quiet(a2),
        !a0.contains(' '),
        made_in(s0, a0),
        made_in(s1, a1),
        made_in(s2, a2),
        made_in(s3, a2),
        apply_rules(s0, crate::format::digit_rules(k)) == s1,
        forall|m: int| 0 <= m < 10 && m != k ==> !a0.contains(#[trigger] digit_char(m)) && !a1.contains(digit_char(m)),
        replace_spec(s1, seq!['*'], seq![' ', '*', ' ']) == s2,
        0 <= jb < 7,
        replace_spec(s2, bracket_rules()[jb].0, bracket_rules()[jb].1) == s3,
        forall|i: int| 0 <= i < 7 && i != jb ==> !a2.contains(#[trigger] bracket_rules()[i].0[0]),
    ensures
        spaced_input(s0) == s3,
{
    lemma_texts();
    reveal_strlit(" "); reveal_strlit("\n"); reveal_strlit("+-"); reveal_strlit("-"); reveal_strlit("");
    let head = seq![(" "@, ""@), ("\n"@, ""@), ("+-"@, "-"@)];
    assert(input_rules() == head + crate::format::digits_rules(10) + const_bracket_rules(2) + padded(operator_texts()));
    assert(all_blocked_in(head, a0)) by {
        assert(head[0].0[0] == ' ');
        assert(head[1].0[0] == '\n');
        assert(head[2].0[0] == '+');
        assert forall|i: int| 0 <= i < head.len() implies blocked_in(#[trigger] head[i].0, a0) by {
            assert(!a0.contains(head[i].0[0]));
        }
    }
    lemma_rules_concat(s0, head + crate::format::digits_rules(10) + const_bracket_rules(2), padded(operator_texts()));
    lemma_rules_concat(s0, head + crate::format::digits_rules(10), const_bracket_rules(2));
    lemma_rules_concat(s0, head, crate::format::digits_rules(10));
    lemma_rules_blocked_in(s0, head, a0);
    lemma_digits_gen(k, s0, s1, a0, a1, 10);
    lemma_const_bracket_blocked_in(2, a1);
    lemma_rules_blocked_in(s1, const_bracket_rules(2), a1);
    let ops = operator_texts();
    let p = padded(ops);
    assert(p[6] == (seq!['*'], seq![' ', '*', ' ']));
    assert forall|i: int| 0 <= i < 6 implies blocked_in(#[trigger] p[i].0, a1) by {
        assert(p[i].0 == ops[i]);
        assert(!a1.contains(ops[i][0]));
    }
    assert forall|i: int| 6 < i < p.len() implies blocked_in(#[trigger] p[i].0, a2) by {
        assert(p[i].0 == ops[i]);
        assert(!a2.contains(ops[i][0]));
    }
    lemma_fire(s1, s2, p, 6, a1, a2);
    lemma_pad_in(s2, a2);
    let br = bracket_rules();
    assert(br.len() == 7);
    assert forall|i: int| 0 <= i < jb implies blocked_in(#[trigger] br[i].0, a2) by {
        assert(br[i].0.len() == 1);
        assert(!a2.contains(br[i].0[0]));
    }
    assert forall|i: int| jb < i < br.len() implies blocked_in(#[trigger] br[i].0, a2) by {
        assert(br[i].0.len() == 1);
        assert(!a2.contains(br[i].0[0]));
    }
    lemma_fire(s2, s3, br, jb, a2, a2);
}

/// The own rules of the digit `digit_char(k)` turn `s0` into `s1` when exactly one rule
/// of the group of opening brackets (`io`) or of closing brackets (`ic`) fires.
proof fn lemma_own_digit_bracket(k: int, s0: Seq<char>, s1: Seq<char>, a0: Set<char>, a1: Set<char>, opening: bool, j0: int)
    requires
        0 <= k < 10,
        quiet(a0),
        quiet(a1),
        made_in(s0, a0),
        made_in(s1, a1),
        0 <= j0 < 3,
        opening ==> s0 == seq![digit_char(k)] + open_brackets()[j0],
        opening ==> s1 == seq![digit_char(k), '*'] + open_brackets()[j0],
        !opening ==> s0 == close_brackets()[j0] + seq![digit_char(k)],
        !opening ==> s1 == close_brackets()[j0] + seq!['*', digit_char(k)],
        forall|i: int| 0 <= i < 3 && i != j0 ==> !a0.contains(#[trigger] open_brackets()[i][0]) && !a1.contains(open_brackets()[i][0]),
        forall|i: int| 0 <= i < 3 && i != j0 ==> !a0.contains(#[trigger] close_brackets()[i][0]) && !a1.contains(close_brackets()[i][0]),
        opening ==> forall|i: int| 0 <= i < 3 ==> !a1.contains(#[trigger] close_brackets()[i][0]),
        !opening ==> forall|i: int| 0 <= i < 3 ==> !a0.contains(#[trigger] open_brackets()[i][0]),
    ensures
        apply_rules(s0, crate::format::digit_rules(k)) == s1,
{
    let d = digit_char(k);
    lemma_funcs_start();
    lemma_texts();
    let f = star_after(seq![d], funcs());
    let kk = star_after(seq![d], const_names());
    let o = star_after(seq![d], open_brackets());
    let c = star_before(close_brackets(), seq![d]);
    assert(crate::format::digit_rules(k) == f + kk + o + c);
    assert(all_blocked_in(f, a0)) by {
        assert forall|i: int| 0 <= i < f.len() implies blocked_in(#[trigger] f[i].0, a0) by {
            assert(f[i].0[1] == funcs()[i][0]);
        }
    }
    assert(all_blocked_in(kk, a0)) by {
        assert forall|i: int| 0 <= i < kk.len() implies blocked_in(#[trigger] kk[i].0, a0) by {
            assert(kk[i].0[1] == const_names()[i][0]);
        }
    }
    lemma_rules_concat(s0, f + kk + o, c);
    lemma_rules_concat(s0, f + kk, o);
    lemma_rules_concat(s0, f, kk);
    lemma_rules_blocked_in(s0, f, a0);
    lemma_rules_blocked_in(s0, kk, a0);
    if opening {
        assert forall|i: int| 0 <= i < j0 implies blocked_in(#[trigger] o[i].0, a0) by {
            assert(o[i].0[1] == open_brackets()[i][0]);
        }
        assert forall|i: int| j0 < i < o.len() implies blocked_in(#[trigger] o[i].0, a1) by {
            assert(o[i].0[1] == open_brackets()[i][0]);
        }
        assert(o[j0].0 == s0);
        lemma_replace_whole(s0, o[j0].1);
        assert(o[j0].1 =~= s1);
        lemma_fire(s0, s1, o, j0, a0, a1);
        assert(all_blocked_in(c, a1)) by {
            assert forall|i: int| 0 <= i < c.len() implies blocked_in(#[trigger] c[i].0, a1) by {
                assert(c[i].0[0] == close_brackets()[i][0]);
            }
        }
        lemma_rules_blocked_in(s1, c, a1);
    } else {
        assert(all_blocked_in(o, a0)) by {
            assert forall|i: int| 0 <= i < o.len() implies blocked_in(#[trigger] o[i].0, a0) by {
                assert(o[i].0[1] == open_brackets()[i][0]);
            }
        }
        lemma_rules_blocked_in(s0, o, a0);
        assert forall|i: int| 0 <= i < j0 implies blocked_in(#[trigger] c[i].0, a0) by {
            assert(c[i].0[0] == close_brackets()[i][0]);
        }
        assert forall|i: int| j0 < i < c.len() implies blocked_in(#[trigger] c[i].0, a1) by {
            assert(c[i].0[0] == close_brackets()[i][0]);
        }
        assert(c[j0].0 == s0);
        lemma_replace_whole(s0, c[j0].1);
        assert(c[j0].1 =~= s1);
        lemma_fire(s0, s1, c, j0, a0, a1);
    }
}

proof fn lemma_digit_index(d: char) -> (k: int)
    requires
        '0' <= d <= '9',
    ensures
        0 <= k < 10,
        digit_char(k) == d,
        forall|m: int| 0 <= m < 10 && m != k ==> '0' <= #[trigger] digit_char(m) <= '9' && digit_char(m) != d,
{
    let k = d as int - '0' as int;
    crate::steps::lemma_digit_char(k);
    assert(digit_char(k) as int == d as int);
    assert forall|m: int| 0 <= m < 10 && m != k implies '0' <= #[trigger] digit_char(m) <= '9' && digit_char(m) != d by {
        crate::steps::lemma_digit_char(m);
    }
    k
}

proof fn law_digit_before_bracket_multiplies_spaced(d: char, b: char)
    requires
        '0' <= d <= '9',
        b == '(' || b == '{' || b == '[',
    ensures
        spaced_input(seq![d, b]) == seq![d, ' ', '*', ' ', ' ', b, ' '],
{
    lemma_texts();
    let k = lemma_digit_index(d);
    let ib: int = if b == '(' { 0 } else if b == '{' { 1 } else { 2 };
    let jb: int = if b == '[' { 0 } else if b == '{' { 2 } else { 4 };
    let s0 = seq![d, b];
    let s1 = seq![d, '*', b];
    let s2 = seq![d, ' ', '*', ' ', b];
    let s3 = seq![d, ' ', '*', ' ', ' ', b, ' '];
    let s4 = seq![d, ' ', '*', ' ', b, ' '];
    let a0 = set![d, b];
    let a1 = set![d, '*', b];
    let a2 = set![d, '*', b, ' '];
    assert(open_brackets()[ib] == seq![b]);
    assert(seq![d] + open_brackets()[ib] =~= s0);
    assert(seq![d, '*'] + open_brackets()[ib] =~= s1);
    lemma_own_digit_bracket(k, s0, s1, a0, a1, true, ib);
    lemma_replace_single(seq![d], '*', seq![b], seq![' ', '*', ' ']);
    assert(seq![d] + seq!['*'] + seq![b] =~= s1);
    assert(seq![d] + seq![' ', '*', ' '] + seq![b] =~= s2);
    let br = bracket_rules();
    assert(br[jb] == (seq![b], seq![' ', b, ' ']));
    lemma_replace_single(seq![d, ' ', '*', ' '], b, Seq::<char>::empty(), seq![' ', b, ' ']);
    assert(seq![d, ' ', '*', ' '] + seq![b] + Seq::<char>::empty() =~= s2);
    assert(seq![d, ' ', '*', ' '] + seq![' ', b, ' '] + Seq::<char>::empty() =~= s3);
    assert(forall|i: int| 0 <= i < 7 && i != jb ==> !a2.contains(#[trigger] bracket_rules()[i].0[0]));
    lemma_pipeline(s0, s1, s2, s3, k, a0, a1, a2, jb);
}

proof fn law_digit_before_bracket_multiplies_squeeze(d: char, b: char)
    requires
        '0' <= d <= '9',
        b == '(' || b == '{' || b == '[',
    ensures
        squeeze_spaces(seq![d, ' ', '*', ' ', ' ', b, ' ']) == seq![d, ' ', '*', ' ', b, ' '],
{
    let s4 = seq![d, ' ', '*', ' ', b, ' '];
    assert(no_double(s4)) by {
        assert forall|i: int| 0 <= i < s4.len() - 1 implies !(#[trigger] s4[i] == ' ' && s4[i + 1] == ' ') by {
            assert(s4[0] != ' ' || s4[1] != ' ');
            assert(s4[1] != ' ' || s4[2] != ' ');
            assert(s4[2] != ' ' || s4[3] != ' ');
            assert(s4[3] != ' ' || s4[4] != ' ');
            assert(s4[4] != ' ' || s4[5] != ' ');
        }
    }
    assert(seq![d, ' ', '*'] + seq![' '] + seq![b, ' '] =~= s4);
    assert(seq![d, ' ', '*'] + seq![' ', ' '] + seq![b, ' '] =~= seq![d, ' ', '*', ' ', ' ', b, ' ']);
    lemma_squeeze_once(seq![d, ' ', '*'], seq![b, ' ']);
}

proof fn law_digit_before_bracket_multiplies_split(d: char, b: char)
    requires
        '0' <= d <= '9',
        b == '(' || b == '{' || b == '[',
    ensures
        drop_empty(split_spec(seq![d, ' ', '*', ' ', b, ' '], seq![' '])) == seq![seq![d], seq!['*'], seq![b]],
{
    let s4 = seq![d, ' ', '*', ' ', b, ' '];
    let e = Seq::<char>::empty();
    let three = seq![seq![d], seq!['*'], seq![b]];
    assert(split_spec(s4, seq![' ']) == three + seq![e]) by {
        assert(split_spec(seq![' '], seq![' ']) == seq![e, e]) by {
            lemma_split_space(e);
            assert(seq![' '] + e =~= seq![' ']);
            assert(split_spec(e, seq![' ']) == seq![e]);
            assert(seq![e] + seq![e] =~= seq![e, e]);
        }
        lemma_split_char_then_space(b, Seq::<char>::empty());
        assert(seq![b, ' '] + e =~= seq![b, ' ']);
        lemma_split_char_then_space('*', seq![b, ' ']);
        lemma_split_char_then_space(d, seq!['*', ' ', b, ' ']);
        assert(seq![d, ' '] + seq!['*', ' ', b, ' '] =~= s4);
        assert(seq!['*', ' '] + seq![b, ' '] =~= seq!['*', ' ', b, ' ']);
        assert(seq![seq![d]] + (seq![seq!['*']] + (seq![seq![b]] + seq![e])) =~= three + seq![e]);
    }
    lemma_drop_empty_concat(three, seq![e]);
    lemma_drop_nonempty(three);
    assert(seq![e].skip(1) =~= Seq::<Seq<char>>::empty());
    assert(drop_empty(seq![e]) == drop_empty(Seq::<Seq<char>>::empty()));
    assert(three + Seq::<Seq<char>>::empty() =~= three);
}

proof fn law_digit_before_bracket_multiplies_tail(d: char, b: char)
    requires
        '0' <= d <= '9',
        b == '(' || b == '{' || b == '[',
    ensures
        drop_empty(split_spec(squeeze_spaces(seq![d, ' ', '*', ' ', ' ', b, ' ']), seq![' '])) == seq![seq![d], seq!['*'], seq![b]],
{
    law_digit_before_bracket_multiplies_squeeze(d, b);
    law_digit_before_bracket_multiplies_split(d, b);
}

/// A digit written directly before an opening bracket is a multiplication: `d(` is read
/// as the tokens `d`, `*` and `(`, for every digit and every opening bracket.
pub proof fn law_digit_before_bracket_multiplies(d: char, b: char)
    requires
        '0' <= d <= '9',
        b == '(' || b == '{' || b == '[',
    ensures
        crate::format::input_tokens(seq![d, b]) == seq![seq![d], seq!['*'], seq![b]],
{
    law_digit_before_bracket_multiplies_spaced(d, b);
    law_digit_before_bracket_multiplies_tail(d, b);
}

proof fn law_bracket_before_digit_multiplies_spaced(b: char, d: char)
    requires
        b == ')' || b == '}' || b == ']',
        '0' <= d <= '9',
    ensures
        spaced_input(seq![b, d]) == seq![' ', b, ' ', ' ', '*', ' ', d],
{
    lemma_texts();
    let k = lemma_digit_index(d);
    let ib: int = if b == ')' { 0 } else if b == '}' { 1 } else { 2 };
    let jb: int = if b == ']' { 1 } else if b == '}' { 3 } else { 5 };
    let s0 = seq![b, d];
    let s1 = seq![b, '*', d];
    let s2 = seq![b, ' ', '*', ' ', d];
    let s3 = seq![' ', b, ' ', ' ', '*', ' ', d];
    let s4 = seq![' ', b, ' ', '*', ' ', d];
    let a0 = set![d, b];
    let a1 = set![d, '*', b];
    let a2 = set![d, '*', b, ' '];
    assert(close_brackets()[ib] == seq![b]);
    assert(close_brackets()[ib] + seq![d] =~= s0);
    assert(close_brackets()[ib] + seq!['*', d] =~= s1);
    lemma_own_digit_bracket(k, s0, s1, a0, a1, false, ib);
    lemma_replace_single(seq![b], '*', seq![d], seq![' ', '*', ' ']);
    assert(seq![b] + seq!['*'] + seq![d] =~= s1);
    assert(seq![b] + seq![' ', '*', ' '] + seq![d] =~= s2);
    let br = bracket_rules();
    assert(br[jb] == (seq![b], seq![' ', b, ' ']));
    lemma_replace_single(Seq::<char>::empty(), b, seq![' ', '*', ' ', d], seq![' ', b, ' ']);
    assert(Seq::<char>::empty() + seq![b] + seq![' ', '*', ' ', d] =~= s2);
    assert(Seq::<char>::empty() + seq![' ', b, ' '] + seq![' ', '*', ' ', d] =~= s3);
    assert(forall|i: int| 0 <= i < 7 && i != jb ==> !a2.contains(#[trigger] bracket_rules()[i].0[0]));
    lemma_pipeline(s0, s1, s2, s3, k, a0, a1, a2, jb);
}

proof fn law_bracket_before_digit_multiplies_squeeze(b: char, d: char)
    requires
        b == ')' || b == '}' || b == ']',
        '0' <= d <= '9',
    ensures
        squeeze_spaces(seq![' ', b, ' ', ' ', '*', ' ', d]) == seq![' ', b, ' ', '*', ' ', d],
{
    let s4 = seq![' ', b, ' ', '*', ' ', d];
    assert(no_double(s4)) by {
        assert forall|i: int| 0 <= i < s4.len() - 1 implies !(#[trigger] s4[i] == ' ' && s4[i + 1] == ' ') by {
            assert(s4[0] != ' ' || s4[1] != ' ');
            assert(s4[1] != ' ' || s4[2] != ' ');
            assert(s4[2] != ' ' || s4[3] != ' ');
            assert(s4[3] != ' ' || s4[4] != ' ');
            assert(s4[4] != ' ' || s4[5] != ' ');
        }
    }
    assert(seq![' ', b] + seq![' '] + seq!['*', ' ', d] =~= s4);
    assert(seq![' ', b] + seq![' ', ' '] + seq!['*', ' ', d] =~= seq![' ', b, ' ', ' ', '*', ' ', d]);
    lemma_squeeze_once(seq![' ', b], seq!['*', ' ', d]);
}

proof fn law_bracket_before_digit_multiplies_split(b: char, d: char)
    requires
        b == ')' || b == '}' || b == ']',
        '0' <= d <= '9',
    ensures
        drop_empty(split_spec(seq![' ', b, ' ', '*', ' ', d], seq![' '])) == seq![seq![b], seq!['*'], seq![d]],
{
    let s4 = seq![' ', b, ' ', '*', ' ', d];
    let e = Seq::<char>::empty();
    let three = seq![seq![b], seq!['*'], seq![d]];
    assert(split_spec(s4, seq![' ']) == seq![e] + three) by {
        lemma_split_last_char(d);
        lemma_split_char_then_space('*', seq![d]);
        lemma_split_char_then_space(b, seq!['*', ' ', d]);
        lemma_split_space(seq![b, ' ', '*', ' ', d]);
        assert(seq![' '] + seq![b, ' ', '*', ' ', d] =~= s4);
        assert(seq![b, ' '] + seq!['*', ' ', d] =~= seq![b, ' ', '*', ' ', d]);
        assert(seq!['*', ' '] + seq![d] =~= seq!['*', ' ', d]);
        assert(seq![e] + (seq![seq![b]] + (seq![seq!['*']] + seq![seq![d]])) =~= seq![e] + three);
    }
    assert((seq![e] + three).skip(1) =~= three);
    lemma_drop_nonempty(three);
}

proof fn law_bracket_before_digit_multiplies_tail(b: char, d: char)
    requires
        b == ')' || b == '}' || b == ']',
        '0' <= d <= '9',
    ensures
        drop_empty(split_spec(squeeze_spaces(seq![' ', b, ' ', ' ', '*', ' ', d]), seq![' '])) == seq![seq![b], seq!['*'], seq![d]],
{
    law_bracket_before_digit_multiplies_squeeze(b, d);
    law_bracket_before_digit_multiplies_split(b, d);
}

/// A closing bracket written directly before a digit is a multiplication: `)d` is read as
/// the tokens `)`, `*` and `d`, for every closing bracket and every digit.
pub proof fn law_bracket_before_digit_multiplies(b: char, d: char)
    requires
        b == ')' || b == '}' || b == ']',
        '0' <= d <= '9',
    ensures
        crate::format::input_tokens(seq![b, d]) == seq![seq![b], seq!['*'], seq![d]],
{
    law_bracket_before_digit_multiplies_spaced(b, d);
    law_bracket_before_digit_multiplies_tail(b, d);
}

/// No two neighbouring characters are both spaces.
pub open spec fn no_double(t: Seq<char>) -> bool {
    forall|i: int| 0 <= i < t.len() - 1 ==> !(#[trigger] t[i] == ' ' && t[i + 1] == ' ')
}

proof fn lemma_no_double(t: Seq<char>)
    requires
        no_double(t),
    ensures
        squeeze_spaces(t) == t,
{
    assert(!contains_spec(t, seq![' ', ' '])) by {
        if contains_spec(t, seq![' ', ' ']) {
            let i = choose|i: int| occurs_at(t, seq![' ', ' '], i);
            assert(t.subrange(i, i + 2)[0] == t[i]);
            assert(t.subrange(i, i + 2)[1] == t[i + 1]);
        }
    }
}

proof fn lemma_replace_prefix_free(a: Seq<char>, rest: Seq<char>)
    requires
        forall|i: int| 0 <= i < a.len() && i + 1 < (a + rest).len() ==> !(#[trigger] (a + rest)[i] == ' ' && (a + rest)[i + 1] == ' '),
    ensures
        replace_spec(a + rest, seq![' ', ' '], seq![' ']) == a + replace_spec(rest, seq![' ', ' '], seq![' ']),
    decreases a.len(),
{
    let p = seq![' ', ' '];
    let t = a + rest;
    if a.len() == 0 {
        assert(t =~= rest);
    } else {
        assert forall|i: int| 0 <= i < a.skip(1).len() && i + 1 < (a.skip(1) + rest).len() implies !(#[trigger] (a.skip(1) + rest)[i] == ' ' && (a.skip(1) + rest)[i + 1] == ' ') by {
            assert((a.skip(1) + rest)[i] == t[i + 1]);
            assert((a.skip(1) + rest)[i + 1] == t[i + 2]);
        }
        lemma_replace_prefix_free(a.skip(1), rest);
        if p.len() <= t.len() && t.take(2) == p {
            assert(t.take(2)[0] == t[0]);
            assert(t.take(2)[1] == t[1]);
        }
        assert(t.skip(1) =~= a.skip(1) + rest);
        assert(seq![t[0]] + (a.skip(1) + replace_spec(rest, p, seq![' '])) =~= a + replace_spec(rest, p, seq![' ']));
    }
}

/// Squeezing a text with one double space, and no other, leaves a single space there.
proof fn lemma_squeeze_once(a: Seq<char>, b: Seq<char>)
    requires
        no_double(a + seq![' '] + b),
    ensures
        squeeze_spaces(a + seq![' ', ' '] + b) == a + seq![' '] + b,
{
    let p = seq![' ', ' '];
    let t1 = a + seq![' '] + b;
    let t3 = a + p + b;
    assert(occurs_at(t3, p, a.len() as int)) by {
        assert(t3.subrange(a.len() as int, (a.len() + 2) as int) =~= p);
    }
    assert(contains_spec(t3, p));
    assert forall|i: int| 0 <= i < a.len() && i + 1 < (a + (p + b)).len() implies !(#[trigger] (a + (p + b))[i] == ' ' && (a + (p + b))[i + 1] == ' ') by {
        assert((a + (p + b))[i] == t1[i]);
        if i + 1 < a.len() {
            assert((a + (p + b))[i + 1] == t1[i + 1]);
        } else {
            assert(t1[i + 1] == ' ');
        }
    }
    lemma_replace_prefix_free(a, p + b);
    assert(t3 =~= a + (p + b));
    assert forall|i: int| 0 <= i < b.len() && i + 1 < (b + Seq::<char>::empty()).len() implies !(#[trigger] (b + Seq::<char>::empty())[i] == ' ' && (b + Seq::<char>::empty())[i + 1] == ' ') by {
        assert((b + Seq::<char>::empty())[i] == t1[a.len() + 1 + i]);
        assert((b + Seq::<char>::empty())[i + 1] == t1[a.len() + 2 + i]);
    }
    lemma_replace_prefix_free(b, Seq::<char>::empty());
    assert(b + Seq::<char>::empty() =~= b);
    assert(replace_spec(Seq::<char>::empty(), p, seq![' ']) == Seq::<char>::empty());
    assert((p + b).take(2) =~= p);
    assert((p + b).skip(2) =~= b);
    assert(replace_spec(p + b, p, seq![' ']) == seq![' '] + b);
    assert(a + (seq![' '] + b) =~= t1);
    lemma_no_double(t1);
}

proof fn lemma_drop_nonempty(ps: Seq<Seq<char>>)
    requires
        forall|k: int| 0 <= k < ps.len() ==> (#[trigger] ps[k]).len() > 0,
    ensures
        drop_empty(ps) == ps,
    decreases ps.len(),
{
    if ps.len() > 0 {
        assert forall|k: int| 0 <= k < ps.skip(1).len() implies (#[trigger] ps.skip(1)[k]).len() > 0 by {
            assert(ps.skip(1)[k] == ps[k + 1]);
        }
        lemma_drop_nonempty(ps.skip(1));
        assert(seq![ps[0]] + ps.skip(1) =~= ps);
    }
}

proof fn lemma_split_char_then_space(x: char, rest: Seq<char>)
    requires
        x != ' ',
    ensures
        split_spec(seq![x, ' '] + rest, seq![' ']) == seq![seq![x]] + split_spec(rest, seq![' ']),
{
    lemma_split_nonempty(rest, seq![' ']);
    lemma_split_space(rest);
    let r = seq![Seq::<char>::empty()] + split_spec(rest, seq![' ']);
    lemma_split_word(seq![x], seq![' '] + rest);
    assert(seq![x] + (seq![' '] + rest) =~= seq![x, ' '] + rest);
    assert(prefix_first(seq![x], r) =~= seq![seq![x]] + split_spec(rest, seq![' '])) by {
        assert(seq![x] + r[0] =~= seq![x]);
    }
}

proof fn lemma_split_last_char(x: char)
    requires
        x != ' ',
    ensures
        split_spec(seq![x], seq![' ']) == seq![seq![x]],
{
    let e = Seq::<char>::empty();
    lemma_split_word(seq![x], e);
    assert(seq![x] + e =~= seq![x]);
    assert(split_spec(e, seq![' ']) == seq![e]);
    assert(prefix_first(seq![x], seq![e]) =~= seq![seq![x]]) by {
        assert(seq![x] + e =~= seq![x]);
    }
}

/// `p` is a prefix of `t`.
pub open spec fn is_prefix(p: Seq<char>, t: Seq<char>) -> bool {
    p.len() <= t.len() && t.take(p.len() as int) == p
}

/// Every function name is made of lowercase letters and starts with `c`, `s`, `t` or `l`.
proof fn lemma_funcs_letters()
    ensures
        forall|k: int, i: int| 0 <= k < funcs().len() && 0 <= i < funcs()[k].len() ==> 'a' <= #[trigger] funcs()[k][i] <= 'z',
{
    reveal_strlit("cos");
    reveal_strlit("sin");
    reveal_strlit("tan");
    reveal_strlit("sec");
    reveal_strlit("cosec");
    reveal_strlit("cot");
    reveal_strlit("cosh");
    reveal_strlit("sinh");
    reveal_strlit("tanh");
    reveal_strlit("sech");
    reveal_strlit("cosech");
    reveal_strlit("coth");
    reveal_strlit("log");
    let f = funcs();
    assert forall|k: int, i: int| 0 <= k < f.len() && 0 <= i < f[k].len() implies 'a' <= #[trigger] f[k][i] <= 'z' by {
        if k == 0 { assert(f[k] == seq!['c', 'o', 's']); }
        else if k == 1 { assert(f[k] == seq!['s', 'i', 'n']); }
        else if k == 2 { assert(f[k] == seq!['t', 'a', 'n']); }
        else if k == 3 { assert(f[k] == seq!['s', 'e', 'c']); }
        else if k == 4 { assert(f[k] == seq!['c', 'o', 's', 'e', 'c']); }
        else if k == 5 { assert(f[k] == seq!['c', 'o', 't']); }
        else if k == 6 { assert(f[k] == seq!['c', 'o', 's', 'h']); }
        else if k == 7 { assert(f[k] == seq!['s', 'i', 'n', 'h']); }
        else if k == 8 { assert(f[k] == seq!['t', 'a', 'n', 'h']); }
        else if k == 9 { assert(f[k] == seq!['s', 'e', 'c', 'h']); }
        else if k == 10 { assert(f[k] == seq!['c', 'o', 's', 'e', 'c', 'h']); }
        else if k == 11 { assert(f[k] == seq!['c', 'o', 't', 'h']); }
        else { assert(f[k] == seq!['l', 'o', 'g']); }
    }
}

/// A rule whose text starts with the only `d` of `s`, at its front, changes `s` only
/// when that text begins `s`.
proof fn lemma_replace_front_only(s: Seq<char>, pat: Seq<char>, to: Seq<char>)
    requires
        s.len() > 0,
        pat.len() > 0,
        pat[0] == s[0],
        forall|i: int| 1 <= i < s.len() ==> #[trigger] s[i] != s[0],
        !is_prefix(pat, s),
    ensures
        replace_spec(s, pat, to) == s,
{
    assert forall|i: int| 0 <= i < s.skip(1).len() implies s.skip(1)[i] != pat[0] by {
        assert(s.skip(1)[i] == s[i + 1]);
    }
    lemma_replace_missing(s.skip(1), pat, to, 0);
    assert(seq![s[0]] + s.skip(1) =~= s);
}

/// Through the rules that write a digit before a function name as a product, `d f` for
/// a function name `f` becomes `d * f` as soon as a name that begins `f` is met.
proof fn lemma_star_funcs(d: char, f: Seq<char>, n: int)
    requires
        '0' <= d <= '9',
        0 <= n <= funcs().len(),
        f.len() > 0,
        forall|i: int| 0 <= i < f.len() ==> 'a' <= #[trigger] f[i] <= 'z',
    ensures
        apply_rules(seq![d] + f, star_after(seq![d], funcs()).take(n)) == (if exists|j: int| 0 <= j < n && #[trigger] is_prefix(funcs()[j], f) {
            seq![d, '*'] + f
        } else {
            seq![d] + f
        }),
    decreases n,
{
    let g = star_after(seq![d], funcs());
    let s0 = seq![d] + f;
    let s1 = seq![d, '*'] + f;
    if n == 0 {
        assert(g.take(0) =~= Seq::<Rule>::empty());
    } else {
        lemma_star_funcs(d, f, n - 1);
        lemma_funcs_letters();
        lemma_funcs_start();
        assert(g.take(n).drop_last() =~= g.take(n - 1));
        assert(g.take(n).last() == g[n - 1]);
        let fp = funcs()[n - 1];
        let r = g[n - 1];
        assert(r == (seq![d] + fp, seq![d] + seq!['*'] + fp));
        let before = apply_rules(s0, g.take(n - 1));
        let fired_before = exists|j: int| 0 <= j < n - 1 && #[trigger] is_prefix(funcs()[j], f);
        if fired_before {
            let j = choose|j: int| 0 <= j < n - 1 && #[trigger] is_prefix(funcs()[j], f);
            assert(0 <= j < n && is_prefix(funcs()[j], f));
            assert forall|i: int| 1 <= i < s1.len() implies #[trigger] s1[i] != s1[0] by {
                if i >= 2 {
                    assert(s1[i] == f[i - 2]);
                }
            }
            assert(!is_prefix(r.0, s1)) by {
                if is_prefix(r.0, s1) {
                    assert(s1.take(r.0.len() as int)[1] == s1[1]);
                    assert(r.0[1] == fp[0]);
                }
            }
            lemma_replace_front_only(s1, r.0, r.1);
        } else {
            assert forall|i: int| 1 <= i < s0.len() implies #[trigger] s0[i] != s0[0] by {
                assert(s0[i] == f[i - 1]);
            }
            if is_prefix(fp, f) {
                let k = fp.len() as int;
                assert(s0.take(k + 1) =~= r.0) by {
                    assert(f.take(k) == fp);
                    assert forall|i: int| 0 <= i < k + 1 implies s0.take(k + 1)[i] == r.0[i] by {
                        if i > 0 {
                            assert(s0[i] == f[i - 1]);
                            assert(f.take(k)[i - 1] == f[i - 1]);
                        }
                    }
                }
                assert(s0.skip(k + 1) =~= f.skip(k));
                assert forall|i: int| 0 <= i < f.skip(k).len() implies f.skip(k)[i] != r.0[0] by {
                    assert(f.skip(k)[i] == f[i + k]);
                }
                lemma_replace_missing(f.skip(k), r.0, r.1, 0);
                assert(r.1 + f.skip(k) =~= s1) by {
                    assert forall|i: int| 0 <= i < s1.len() implies (r.1 + f.skip(k))[i] == s1[i] by {
                        if i >= 2 && i < k + 2 {
                            assert(f.take(k)[i - 2] == f[i - 2]);
                        }
                    }
                }
                assert(exists|j: int| 0 <= j < n && #[trigger] is_prefix(funcs()[j], f)) by {
                    assert(is_prefix(funcs()[n - 1], f));
                }
            } else {
                assert(!is_prefix(r.0, s0)) by {
                    if is_prefix(r.0, s0) {
                        assert forall|i: int| 0 <= i < fp.len() implies f.take(fp.len() as int)[i] == fp[i] by {
                            assert(s0.take(r.0.len() as int)[i + 1] == r.0[i + 1]);
                        }
                        assert(f.take(fp.len() as int) =~= fp);
                    }
                }
                lemma_replace_front_only(s0, r.0, r.1);
                assert(!exists|j: int| 0 <= j < n && #[trigger] is_prefix(funcs()[j], f)) by {
                    if exists|j: int| 0 <= j < n && #[trigger] is_prefix(funcs()[j], f) {
                        let j = choose|j: int| 0 <= j < n && #[trigger] is_prefix(funcs()[j], f);
                        assert(j == n - 1);
                    }
                }
            }
        }
    }
}

/// Rules whose texts start with the only `s[0]` of `s` and differ from `s` in their second
/// character leave `s` as it is.
proof fn lemma_front_group(s: Seq<char>, rules: Seq<Rule>)
    requires
        s.len() > 1,
        forall|i: int| 1 <= i < s.len() ==> #[trigger] s[i] != s[0],
        forall|k: int| 0 <= k < rules.len() ==> (#[trigger] rules[k].0).len() > 1
            && rules[k].0[0] == s[0] && rules[k].0[1] != s[1],
    ensures
        apply_rules(s, rules) == s,
    decreases rules.len(),
{
    if rules.len() > 0 {
        assert forall|k: int| 0 <= k < rules.drop_last().len() implies (#[trigger] rules.drop_last()[k].0).len() > 1
            && rules.drop_last()[k].0[0] == s[0] && rules.drop_last()[k].0[1] != s[1] by {
            assert(rules.drop_last()[k] == rules[k]);
        }
        lemma_front_group(s, rules.drop_last());
        let r = rules.last();
        assert(r == rules[rules.len() - 1]);
        assert(!is_prefix(r.0, s)) by {
            if is_prefix(r.0, s) {
                assert(s.take(r.0.len() as int)[1] == s[1]);
            }
        }
        lemma_replace_front_only(s, r.0, r.1);
    }
}

/// The rules between brackets and constant names cannot change a text without brackets.
proof fn lemma_const_bracket_blocked_br(n: int, a: Set<char>)
    requires
        0 <= n <= 2,
        forall|i: int| 0 <= i < 3 ==> !a.contains(#[trigger] open_brackets()[i][0]),
        forall|i: int| 0 <= i < 3 ==> !a.contains(#[trigger] close_brackets()[i][0]),
    ensures
        all_blocked_in(const_bracket_rules(n), a),
    decreases n,
{
    if n > 0 {
        lemma_const_bracket_blocked_br(n - 1, a);
        lemma_texts();
        let t = const_names()[n - 1];
        let b = star_before(close_brackets(), t);
        let o = star_after(t, open_brackets());
        let prev = const_bracket_rules(n - 1);
        assert forall|i: int| 0 <= i < (prev + b + o).len() implies blocked_in(#[trigger] (prev + b + o)[i].0, a) by {
            if i < prev.len() {
                assert((prev + b + o)[i] == prev[i]);
            } else if i < prev.len() + b.len() {
                let x = (prev + b + o)[i].0;
                assert(x == close_brackets()[i - prev.len()] + t);
                assert(x[0] == close_brackets()[i - prev.len()][0]);
                assert(!a.contains(close_brackets()[i - prev.len()][0]));
            } else {
                let x = (prev + b + o)[i].0;
                let q = i - prev.len() - b.len();
                assert(x == t + open_brackets()[q]);
                assert(x[t.len() as int] == open_brackets()[q][0]);
                assert(!a.contains(open_brackets()[q][0]));
            }
        }
    }
}

/// A function name: not empty, and made of lowercase letters.
proof fn lemma_function_name(f: Seq<char>) -> (j: int)
    requires
        funcs().contains(f),
    ensures
        0 <= j < funcs().len(),
        funcs()[j] == f,
        f.len() > 0,
        f[0] == 'c' || f[0] == 's' || f[0] == 't' || f[0] == 'l',
        forall|i: int| 0 <= i < f.len() ==> 'a' <= #[trigger] f[i] <= 'z',
{
    lemma_funcs_letters();
    lemma_funcs_start();
    let j = choose|j: int| 0 <= j < funcs().len() && funcs()[j] == f;
    assert forall|i: int| 0 <= i < f.len() implies 'a' <= #[trigger] f[i] <= 'z' by {
        assert('a' <= funcs()[j][i] <= 'z');
    }
    j
}

/// The own rules of the digit `d` write `d f` as `d * f` for a function name `f`.
proof fn lemma_own_digit_function(k: int, f: Seq<char>)
    requires
        0 <= k < 10,
        funcs().contains(f),
    ensures
        apply_rules(seq![digit_char(k)] + f, crate::format::digit_rules(k)) == seq![digit_char(k), '*'] + f,
{
    let d = digit_char(k);
    crate::steps::lemma_digit_char(k);
    let j = lemma_function_name(f);
    lemma_texts();
    let s0 = seq![d] + f;
    let s1 = seq![d, '*'] + f;
    let g = star_after(seq![d], funcs());
    let kk = star_after(seq![d], const_names());
    let o = star_after(seq![d], open_brackets());
    let c = star_before(close_brackets(), seq![d]);
    assert(crate::format::digit_rules(k) == g + kk + o + c);
    assert(is_prefix(funcs()[j], f)) by {
        assert(f.take(f.len() as int) =~= f);
    }
    lemma_star_funcs(d, f, 13);
    assert(g.take(13) =~= g);
    assert forall|i: int| 1 <= i < s1.len() implies #[trigger] s1[i] != s1[0] by {
        if i >= 2 {
            assert(s1[i] == f[i - 2]);
        }
    }
    let ko = kk + o;
    assert forall|i: int| 0 <= i < ko.len() implies (#[trigger] ko[i].0).len() > 1
        && ko[i].0[0] == s1[0] && ko[i].0[1] != s1[1] by {
        if i < kk.len() {
            assert(ko[i] == kk[i]);
            assert(kk[i].0 == seq![d] + const_names()[i]);
            assert(kk[i].0[1] == const_names()[i][0]);
        } else {
            assert(ko[i] == o[i - kk.len()]);
            assert(o[i - kk.len()].0 == seq![d] + open_brackets()[i - kk.len()]);
            assert(o[i - kk.len()].0[1] == open_brackets()[i - kk.len()][0]);
        }
    }
    lemma_front_group(s1, ko);
    assert(g + kk + o + c =~= g + ko + c);
    lemma_rules_concat(s0, g + ko, c);
    lemma_rules_concat(s0, g, ko);
    assert forall|i: int| 0 <= i < s1.len() implies s1[i] != close_brackets()[0][0] by {
        if i >= 2 {
            assert(s1[i] == f[i - 2]);
        }
    }
    assert forall|q: int| 0 <= q < c.len() implies replace_spec(s1, #[trigger] c[q].0, c[q].1) == s1 by {
        assert(c[q].0 == close_brackets()[q] + seq![d]);
        assert(c[q].0[0] == close_brackets()[q][0]);
        assert forall|i: int| 0 <= i < s1.len() implies s1[i] != c[q].0[0] by {
            if i >= 2 {
                assert(s1[i] == f[i - 2]);
            }
        }
        lemma_replace_missing(s1, c[q].0, c[q].1, 0);
    }
    let a1 = Set::new(|x: char| x == d || x == '*' || ('a' <= x && x <= 'z'));
    assert(made_in(s1, a1)) by {
        assert forall|i: int| 0 <= i < s1.len() implies a1.contains(#[trigger] s1[i]) by {
            if i >= 2 {
                assert(s1[i] == f[i - 2]);
            }
        }
    }
    assert(all_blocked_in(c, a1)) by {
        assert forall|q: int| 0 <= q < c.len() implies blocked_in(#[trigger] c[q].0, a1) by {
            assert(c[q].0 == close_brackets()[q] + seq![d]);
            assert(c[q].0[0] == close_brackets()[q][0]);
        }
    }
    lemma_rules_blocked_in(s1, c, a1);
}

/// Formatting rewrites `d f`, a digit before a function name, into `d * f`, the product
/// set apart by single spaces.
proof fn lemma_function_rules(d: char, f: Seq<char>)
    requires
        '0' <= d <= '9',
        funcs().contains(f),
    ensures
        apply_rules(seq![d] + f, input_rules()) == seq![d, ' ', '*', ' '] + f,
{
    lemma_texts();
    reveal_strlit(" "); reveal_strlit("\n"); reveal_strlit("+-"); reveal_strlit("-"); reveal_strlit("");
    let j = lemma_function_name(f);
    let k = lemma_digit_index(d);
    let s0 = seq![d] + f;
    let s1 = seq![d, '*'] + f;
    let s2 = seq![d, ' ', '*', ' '] + f;
    let a0 = Set::new(|x: char| x == d || ('a' <= x && x <= 'z'));
    let a1 = Set::new(|x: char| x == d || x == '*' || ('a' <= x && x <= 'z'));
    let a2 = Set::new(|x: char| x == d || x == '*' || x == ' ' || ('a' <= x && x <= 'z'));
    assert(made_in(s0, a0)) by {
        assert forall|i: int| 0 <= i < s0.len() implies a0.contains(#[trigger] s0[i]) by {
            if i >= 1 { assert(s0[i] == f[i - 1]); }
        }
    }
    assert(made_in(s1, a1)) by {
        assert forall|i: int| 0 <= i < s1.len() implies a1.contains(#[trigger] s1[i]) by {
            if i >= 2 { assert(s1[i] == f[i - 2]); }
        }
    }
    assert(made_in(s2, a2)) by {
        assert forall|i: int| 0 <= i < s2.len() implies a2.contains(#[trigger] s2[i]) by {
            if i >= 4 { assert(s2[i] == f[i - 4]); }
        }
    }
    let head = seq![(" "@, ""@), ("\n"@, ""@), ("+-"@, "-"@)];
    assert(input_rules() == head + crate::format::digits_rules(10) + const_bracket_rules(2) + padded(operator_texts()));
    assert(all_blocked_in(head, a0)) by {
        assert(head[0].0[0] == ' ');
        assert(head[1].0[0] == '\n');
        assert(head[2].0[0] == '+');
        assert forall|i: int| 0 <= i < head.len() implies blocked_in(#[trigger] head[i].0, a0) by {
            assert(!a0.contains(head[i].0[0]));
        }
    }
    lemma_rules_concat(s0, head + crate::format::digits_rules(10) + const_bracket_rules(2), padded(operator_texts()));
    lemma_rules_concat(s0, head + crate::format::digits_rules(10), const_bracket_rules(2));
    lemma_rules_concat(s0, head, crate::format::digits_rules(10));
    lemma_rules_blocked_in(s0, head, a0);
    lemma_own_digit_function(k, f);
    lemma_digits_gen(k, s0, s1, a0, a1, 10);
    lemma_const_bracket_blocked_br(2, a1);
    lemma_rules_blocked_in(s1, const_bracket_rules(2), a1);
    let ops = operator_texts();
    let p = padded(ops);
    assert(p[6] == (seq!['*'], seq![' ', '*', ' ']));
    assert forall|i: int| 0 <= i < 6 implies blocked_in(#[trigger] p[i].0, a1) by {
        assert(p[i].0 == ops[i]);
        assert(!a1.contains(ops[i][0]));
    }
    assert forall|i: int| 6 < i < p.len() implies blocked_in(#[trigger] p[i].0, a2) by {
        assert(p[i].0 == ops[i]);
        assert(!a2.contains(ops[i][0]));
    }
    lemma_replace_single(seq![d], '*', f, seq![' ', '*', ' ']);
    assert(seq![d] + seq!['*'] + f =~= s1);
    assert(seq![d] + seq![' ', '*', ' '] + f =~= s2);
    lemma_fire(s1, s2, p, 6, a1, a2);
}

proof fn lemma_longest_le(s: Seq<char>, names: Seq<Seq<char>>)
    ensures
        longest_name(s, names) <= s.len(),
    decreases names.len(),
{
    if names.len() > 0 {
        lemma_longest_le(s, names.drop_last());
    }
}

proof fn lemma_longest_ge(s: Seq<char>, names: Seq<Seq<char>>, j: int)
    requires
        0 <= j < names.len(),
        is_prefix(names[j], s),
    ensures
        longest_name(s, names) >= names[j].len(),
    decreases names.len(),
{
    if j < names.len() - 1 {
        assert(names.drop_last()[j] == names[j]);
        lemma_longest_ge(s, names.drop_last(), j);
    } else {
        assert(names.last() == names[j]);
    }
}

/// No name starts at a character that no name starts with.
proof fn lemma_name_first(t: Seq<char>, names: Seq<Seq<char>>)
    requires
        t.len() > 0,
        t[0] != 'c' && t[0] != 's' && t[0] != 't' && t[0] != 'l',
        forall|k: int| 0 <= k < names.len() ==> (#[trigger] names[k]).len() > 0
            && (names[k][0] == 'c' || names[k][0] == 's' || names[k][0] == 't' || names[k][0] == 'l'),
    ensures
        longest_name(t, names) == 0,
    decreases names.len(),
{
    if names.len() > 0 {
        assert forall|k: int| 0 <= k < names.drop_last().len() implies (#[trigger] names.drop_last()[k]).len() > 0
            && (names.drop_last()[k][0] == 'c' || names.drop_last()[k][0] == 's' || names.drop_last()[k][0] == 't'
            || names.drop_last()[k][0] == 'l') by {
            assert(names.drop_last()[k] == names[k]);
        }
        lemma_name_first(t, names.drop_last());
        let n = names.last();
        assert(n == names[names.len() - 1]);
        if n.len() <= t.len() && t.take(n.len() as int) == n {
            assert(t.take(n.len() as int)[0] == t[0]);
        }
    }
}

proof fn lemma_pad_step(c: char, rest: Seq<char>)
    requires
        c != 'c' && c != 's' && c != 't' && c != 'l',
    ensures
        pad_names(seq![c] + rest, funcs()) == seq![c] + pad_names(rest, funcs()),
{
    lemma_funcs_start();
    lemma_name_first(seq![c] + rest, funcs());
    assert((seq![c] + rest).skip(1) =~= rest);
}

/// Setting the function names apart puts a space on each side of the name in `d * f`.
proof fn lemma_pad_function(d: char, f: Seq<char>)
    requires
        '0' <= d <= '9',
        funcs().contains(f),
    ensures
        pad_names(seq![d, ' ', '*', ' '] + f, funcs()) == seq![d, ' ', '*', ' ', ' '] + f + seq![' '],
{
    let j = lemma_function_name(f);
    assert(is_prefix(funcs()[j], f)) by {
        assert(f.take(f.len() as int) =~= f);
    }
    lemma_longest_le(f, funcs());
    lemma_longest_ge(f, funcs(), j);
    let n = f.len() as int;
    assert(longest_name(f, funcs()) == n);
    assert(f.take(n) =~= f);
    assert(f.skip(n) =~= Seq::<char>::empty());
    assert(pad_names(Seq::<char>::empty(), funcs()) == Seq::<char>::empty());
    assert(pad_names(f, funcs()) =~= seq![' '] + f + seq![' ']);
    lemma_pad_step(' ', f);
    lemma_pad_step('*', seq![' '] + f);
    lemma_pad_step(' ', seq!['*'] + (seq![' '] + f));
    lemma_pad_step(d, seq![' '] + (seq!['*'] + (seq![' '] + f)));
    assert(seq![d] + (seq![' '] + (seq!['*'] + (seq![' '] + f))) =~= seq![d, ' ', '*', ' '] + f);
    assert(seq![d] + (seq![' '] + (seq!['*'] + (seq![' '] + (seq![' '] + f + seq![' '])))) =~= seq![d, ' ', '*', ' ', ' '] + f + seq![' ']);
}

proof fn law_digit_before_function_multiplies_spaced(d: char, f: Seq<char>)
    requires
        '0' <= d <= '9',
        funcs().contains(f),
    ensures
        spaced_input(seq![d] + f) == seq![d, ' ', '*', ' ', ' '] + f + seq![' '],
{
    lemma_function_rules(d, f);
    lemma_pad_function(d, f);
    let j = lemma_function_name(f);
    lemma_texts();
    let s3 = seq![d, ' ', '*', ' ', ' '] + f + seq![' '];
    let a2 = Set::new(|x: char| x == d || x == '*' || x == ' ' || ('a' <= x && x <= 'z'));
    assert(made_in(s3, a2)) by {
        assert forall|i: int| 0 <= i < s3.len() implies a2.contains(#[trigger] s3[i]) by {
            if 5 <= i < 5 + f.len() { assert(s3[i] == f[i - 5]); }
        }
    }
    let br = bracket_rules();
    assert(all_blocked_in(br, a2)) by {
        assert forall|i: int| 0 <= i < br.len() implies blocked_in(#[trigger] br[i].0, a2) by {
            assert(br[i].0.len() == 1);
            assert(!a2.contains(br[i].0[0]));
        }
    }
    lemma_rules_blocked_in(s3, br, a2);
}

proof fn law_digit_before_function_multiplies_squeeze(d: char, f: Seq<char>)
    requires
        '0' <= d <= '9',
        funcs().contains(f),
    ensures
        squeeze_spaces(seq![d, ' ', '*', ' ', ' '] + f + seq![' ']) == seq![d, ' ', '*', ' '] + f + seq![' '],
{
    let j = lemma_function_name(f);
    let t = seq![d, ' ', '*', ' '] + f + seq![' '];
    assert(no_double(t)) by {
        assert forall|i: int| 0 <= i < t.len() - 1 implies !(#[trigger] t[i] == ' ' && t[i + 1] == ' ') by {
            if i < 3 {
                assert(t[0] != ' ' || t[1] != ' ');
                assert(t[1] != ' ' || t[2] != ' ');
                assert(t[2] != ' ' || t[3] != ' ');
            } else if i == 3 {
                assert(t[4] == f[0]);
            } else {
                assert(t[i] == f[i - 4]);
            }
        }
    }
    let b = f + seq![' '];
    assert(seq![d, ' ', '*'] + seq![' '] + b =~= t);
    assert(seq![d, ' ', '*'] + seq![' ', ' '] + b =~= seq![d, ' ', '*', ' ', ' '] + f + seq![' ']);
    lemma_squeeze_once(seq![d, ' ', '*'], b);
}

proof fn law_digit_before_function_multiplies_split(d: char, f: Seq<char>)
    requires
        '0' <= d <= '9',
        funcs().contains(f),
    ensures
        drop_empty(split_spec(seq![d, ' ', '*', ' '] + f + seq![' '], seq![' '])) == seq![seq![d], seq!['*'], f],
{
    let j = lemma_function_name(f);
    let t = seq![d, ' ', '*', ' '] + f + seq![' '];
    let e = Seq::<char>::empty();
    let three = seq![seq![d], seq!['*'], f];
    assert(split_spec(t, seq![' ']) == three + seq![e]) by {
        assert(split_spec(seq![' '], seq![' ']) == seq![e, e]) by {
            lemma_split_space(e);
            assert(seq![' '] + e =~= seq![' ']);
            assert(split_spec(e, seq![' ']) == seq![e]);
            assert(seq![e] + seq![e] =~= seq![e, e]);
        }
        lemma_split_word(f, seq![' ']);
        assert(prefix_first(f, seq![e, e]) =~= seq![f, e]) by {
            assert(f + e =~= f);
        }
        lemma_split_char_then_space('*', f + seq![' ']);
        lemma_split_char_then_space(d, seq!['*', ' '] + (f + seq![' ']));
        assert(seq![d, ' '] + (seq!['*', ' '] + (f + seq![' '])) =~= t);
        assert(seq![seq![d]] + (seq![seq!['*']] + seq![f, e]) =~= three + seq![e]);
    }
    lemma_drop_empty_concat(three, seq![e]);
    assert forall|k: int| 0 <= k < three.len() implies (#[trigger] three[k]).len() > 0 by {}
    lemma_drop_nonempty(three);
    assert(seq![e].skip(1) =~= Seq::<Seq<char>>::empty());
    assert(drop_empty(seq![e]) == drop_empty(Seq::<Seq<char>>::empty()));
    assert(three + Seq::<Seq<char>>::empty() =~= three);
}

/// A digit written directly before a function name is a multiplication: `d f` is read as
/// the tokens `d`, `*` and `f` (so `2sin` is `2 * sin`), for every digit and every
/// function name.
pub proof fn law_digit_before_function_multiplies(d: char, f: Seq<char>)
    requires
        '0' <= d <= '9',
        funcs().contains(f),
    ensures
        crate::format::input_tokens(seq![d] + f) == seq![seq![d], seq!['*'], f],
{
    law_digit_before_function_multiplies_spaced(d, f);
    law_digit_before_function_multiplies_squeeze(d, f);
    law_digit_before_function_multiplies_split(d, f);
}

} // verus!
