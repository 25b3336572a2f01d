//! Splitting text into tokens, classifying tokens, and the factorial.

use vstd::prelude::*;
use crate::text::{
    char_string, concat, contains, contains_spec, from_chars, matches_at, occurs_at, replace_all, replace_spec, same_text,
    skip_chars, to_chars,
};
use crate::numparse::{float_syntax, is_float_text};
use crate::pattern::{complex_token_pattern, regex_matches, known_outcome};

verus! {

/// The pieces of `s` around the non-overlapping occurrences of `sep` found from the left,
/// as `str::split` yields them; an empty separator yields an empty piece, then every
/// character on its own, then an empty piece.
pub open spec fn split_spec(s: Seq<char>, sep: Seq<char>) -> Seq<Seq<char>>
    decreases s.len(),
{
    if sep.len() == 0 {
        seq![Seq::<char>::empty()] + s.map_values(|c: char| seq![c]) + seq![Seq::<char>::empty()]
    } else if s.len() == 0 {
        seq![Seq::<char>::empty()]
    } else if sep.len() <= s.len() && s.take(sep.len() as int) == sep {
        seq![Seq::<char>::empty()] + split_spec(s.skip(sep.len() as int), sep)
    } else {
        let r = split_spec(s.skip(1), sep);
        r.update(0, seq![s[0]] + r[0])
    }
}

/// The non-empty pieces, in order.
pub open spec fn drop_empty(ps: Seq<Seq<char>>) -> Seq<Seq<char>>
    decreases ps.len(),
{
    if ps.len() == 0 {
        ps
    } else if ps[0].len() == 0 {
        drop_empty(ps.skip(1))
    } else {
        seq![ps[0]] + drop_empty(ps.skip(1))
    }
}

/// `ps` with `c` put in front of its first piece.
pub open spec fn prefix_first<T>(c: Seq<T>, ps: Seq<Seq<T>>) -> Seq<Seq<T>> {
    ps.update(0, c + ps[0])
}

/// `str::split` yields at least one piece.
pub proof fn lemma_split_nonempty(s: Seq<char>, sep: Seq<char>)
    ensures
        split_spec(s, sep).len() >= 1,
    decreases s.len(),
{
    if sep.len() > 0 && s.len() > 0 {
        if !(sep.len() <= s.len() && s.take(sep.len() as int) == sep) {
            lemma_split_nonempty(s.skip(1), sep);
        }
    }
}

/// Dropping the empty pieces of two lists put together drops them from each.
pub proof fn lemma_drop_empty_concat(a: Seq<Seq<char>>, b: Seq<Seq<char>>)
    ensures
        drop_empty(a + b) == drop_empty(a) + drop_empty(b),
    decreases a.len(),
{
    if a.len() == 0 {
        assert(a + b =~= b);
    } else {
        lemma_drop_empty_concat(a.skip(1), b);
        assert((a + b).skip(1) =~= a.skip(1) + b);
    }
}

proof fn lemma_drop_empty_singles(s: Seq<char>)
    ensures
        drop_empty(s.map_values(|c: char| seq![c])) == s.map_values(|c: char| seq![c]),
    decreases s.len(),
{
    let m = s.map_values(|c: char| seq![c]);
    if s.len() > 0 {
        lemma_drop_empty_singles(s.skip(1));
        assert(m.skip(1) =~= s.skip(1).map_values(|c: char| seq![c]));
        assert(m[0].len() == 1);
        assert(seq![m[0]] + m.skip(1) =~= m);
    }
}

proof fn lemma_drop_empty_one(x: Seq<char>)
    ensures
        drop_empty(seq![x]) == (if x.len() > 0 { seq![x] } else { Seq::<Seq<char>>::empty() }),
{
    assert(seq![x].skip(1) =~= Seq::<Seq<char>>::empty());
    assert(drop_empty(Seq::<Seq<char>>::empty()) == Seq::<Seq<char>>::empty());
}

/// The non-empty pieces of `inp` around `sep`: what
/// `inp.split(sep).filter(|c| !c.is_empty())` yields.
pub fn create_vecs_from_str<'a>(inp: String, sep: &'a str) -> (r: Vec<String>)
    ensures
        r.deep_view() == drop_empty(split_spec(inp@, sep@)),
{
    let s = to_chars(inp.as_str());
    let p = to_chars(sep);
    let mut out: Vec<String> = Vec::new();
    if p.len() == 0 {
        let mut i: usize = 0;
        while i < s.len()
            invariant
                s@ == inp@,
                i <= s.len(),
                out.deep_view() == s@.take(i as int).map_values(|c: char| seq![c]),
            decreases s.len() - i,
        {
            let piece = char_string(s[i]);
            let ghost before = out.deep_view();
            out.push(piece);
            assert(out.deep_view() =~= before.push(seq![s@[i as int]]));
            assert(s@.take(i as int + 1).map_values(|c: char| seq![c]) =~= s@.take(i as int).map_values(|c: char| seq![c]).push(seq![s@[i as int]]));
            i = i + 1;
        }
        proof {
            assert(s@.take(s.len() as int) =~= s@);
            let m = s@.map_values(|c: char| seq![c]);
            let e = Seq::<char>::empty();
            lemma_drop_empty_singles(s@);
            lemma_drop_empty_concat(seq![e] + m, seq![e]);
            lemma_drop_empty_concat(seq![e], m);
            lemma_drop_empty_one(e);
            assert(drop_empty(seq![e]) =~= Seq::<Seq<char>>::empty());
            assert(split_spec(inp@, sep@) == seq![e] + m + seq![e]);
            assert(out.deep_view() =~= drop_empty(seq![e]) + drop_empty(m) + drop_empty(seq![e]));
        }
        return out;
    }
    let mut cur: Vec<char> = Vec::new();
    let mut i: usize = 0;
    proof {
        lemma_split_nonempty(s@, p@);
        assert(s@.skip(0) =~= s@);
        assert(prefix_first(cur@, split_spec(s@, p@)) =~= split_spec(s@, p@));
    }
    while i < s.len()
        invariant
            s@ == inp@,
            p@ == sep@,
            p.len() > 0,
            i <= s.len(),
            out.deep_view() + drop_empty(prefix_first(cur@, split_spec(s@.skip(i as int), p@)))
                == drop_empty(split_spec(s@, p@)),
        decreases s.len() - i,
    {
        let ghost rest = s@.skip(i as int);
        let ghost r = split_spec(rest, p@);
        if matches_at(&s, &p, i) {
            proof {
                assert(rest.take(p.len() as int) =~= s@.subrange(i as int, i + p.len()));
                let r2 = split_spec(s@.skip(i + p.len()), p@);
                assert(s@.skip(i as int).skip(p.len() as int) =~= s@.skip(i + p.len()));
                lemma_split_nonempty(s@.skip(i + p.len()), p@);
                assert(r == seq![Seq::<char>::empty()] + r2);
                assert(prefix_first(cur@, r) =~= seq![cur@] + r2);
                assert(prefix_first(Seq::<char>::empty(), r2) =~= r2);
                lemma_drop_empty_concat(seq![cur@], r2);
                lemma_drop_empty_one(cur@);
            }
            let ghost before = out.deep_view();
            if cur.len() > 0 {
                out.push(from_chars(cur.as_slice()));
                assert(out.deep_view() =~= before + seq![cur@]);
            }
            cur = Vec::new();
            i = i + p.len();
        } else {
            proof {
                if p.len() <= rest.len() {
                    assert(rest.take(p.len() as int) =~= s@.subrange(i as int, i + p.len()));
                }
                assert(rest.skip(1) =~= s@.skip(i + 1));
                lemma_split_nonempty(s@.skip(i + 1), p@);
                assert(rest[0] == s@[i as int]);
            }
            let ghost old_cur = cur@;
            cur.push(s[i]);
            proof {
                let r1 = split_spec(s@.skip(i + 1), p@);
                assert(r == r1.update(0, seq![rest[0]] + r1[0]));
                assert(old_cur + (seq![rest[0]] + r1[0]) =~= cur@ + r1[0]);
                assert(prefix_first(old_cur, r) =~= prefix_first(cur@, r1));
            }
            i = i + 1;
        }
    }
    proof {
        assert(s@.skip(i as int) =~= Seq::<char>::empty());
        assert(prefix_first(cur@, split_spec(Seq::<char>::empty(), p@)) =~= seq![cur@]);
        lemma_drop_empty_one(cur@);
    }
    let ghost before = out.deep_view();
    if cur.len() > 0 {
        out.push(from_chars(cur.as_slice()));
        assert(out.deep_view() =~= before + seq![cur@]);
    } else {
        assert(out.deep_view() =~= before + Seq::<Seq<char>>::empty());
    }
    out
}

/// The runs of tokens between the tokens equal to `sep`, as slice `split` yields them:
/// one more run than there are separators, runs may be empty.
pub open spec fn split_tokens(v: Seq<Seq<char>>, sep: Seq<char>) -> Seq<Seq<Seq<char>>>
    decreases v.len(),
{
    if v.len() == 0 {
        seq![Seq::<Seq<char>>::empty()]
    } else if v[0] == sep {
        seq![Seq::<Seq<char>>::empty()] + split_tokens(v.skip(1), sep)
    } else {
        let r = split_tokens(v.skip(1), sep);
        r.update(0, seq![v[0]] + r[0])
    }
}

/// Splitting a token list yields at least one run.
pub proof fn lemma_split_tokens_nonempty(v: Seq<Seq<char>>, sep: Seq<char>)
    ensures
        split_tokens(v, sep).len() >= 1,
    decreases v.len(),
{
    if v.len() > 0 {
        lemma_split_tokens_nonempty(v.skip(1), sep);
    }
}

/// Splits the token list at every token equal to `sep`, dropping the separators.
pub fn create_2dvec_from_1dvecs<'a>(inp: Vec<String>, sep: &'a str) -> (r: Vec<Vec<String>>)
    ensures
        r.deep_view() == split_tokens(inp.deep_view(), sep@),
{
    let ghost v = inp.deep_view();
    let mut out: Vec<Vec<String>> = Vec::new();
    let mut cur: Vec<String> = Vec::new();
    let mut i: usize = 0;
    proof {
        lemma_split_tokens_nonempty(v, sep@);
        assert(v.skip(0) =~= v);
        assert(prefix_first(cur.deep_view(), split_tokens(v, sep@)) =~= split_tokens(v, sep@));
    }
    while i < inp.len()
        invariant
            v == inp.deep_view(),
            i <= inp.len(),
            out.deep_view() + prefix_first(cur.deep_view(), split_tokens(v.skip(i as int), sep@))
                == split_tokens(v, sep@),
        decreases inp.len() - i,
    {
        let ghost rest = v.skip(i as int);
        let ghost r1 = split_tokens(v.skip(i + 1), sep@);
        proof {
            assert(rest.skip(1) =~= v.skip(i + 1));
            assert(rest[0] == v[i as int]);
            lemma_split_tokens_nonempty(v.skip(i + 1), sep@);
        }
        let t = inp[i].clone();
        assert(t@ == v[i as int]);
        if same_text(t.as_str(), sep) {
            let ghost before = out.deep_view();
            let ghost cv = cur.deep_view();
            out.push(cur);
            cur = Vec::new();
            proof {
                assert(out.deep_view() =~= before.push(cv));
                assert(prefix_first(cur.deep_view(), r1) =~= r1);
                assert(prefix_first(cv, split_tokens(rest, sep@)) =~= seq![cv] + r1);
                assert(out.deep_view() + r1 =~= before + (seq![cv] + r1));
            }
        } else {
            let ghost cv = cur.deep_view();
            cur.push(t);
            proof {
                assert(cur.deep_view() =~= cv.push(v[i as int]));
                assert(split_tokens(rest, sep@) == r1.update(0, seq![rest[0]] + r1[0]));
                assert(cv + (seq![rest[0]] + r1[0]) =~= cur.deep_view() + r1[0]);
                assert(prefix_first(cv, split_tokens(rest, sep@)) =~= prefix_first(cur.deep_view(), r1));
            }
        }
        i = i + 1;
    }
    proof {
        assert(v.skip(i as int) =~= Seq::<Seq<char>>::empty());
        assert(prefix_first(cur.deep_view(), split_tokens(v.skip(i as int), sep@)) =~= seq![cur.deep_view()]);
    }
    let ghost before = out.deep_view();
    let ghost cv = cur.deep_view();
    out.push(cur);
    assert(out.deep_view() =~= before + seq![cv]);
    out
}

/// `n!`, with 1 for every `n <= 0`.
pub open spec fn fact(n: int) -> int
    decreases n,
{
    if n <= 0 {
        1
    } else {
        n * fact(n - 1)
    }
}

/// The factorial does not shrink as its argument grows.
pub proof fn lemma_fact_grows(a: int, b: int)
    requires
        0 <= a <= b,
    ensures
        1 <= fact(a) <= fact(b),
    decreases b - a,
{
    if a < b {
        lemma_fact_grows(a, b - 1);
        assert(fact(b) == b * fact(b - 1));
        assert(b * fact(b - 1) >= fact(b - 1)) by (nonlinear_arith)
            requires
                b >= 1,
                fact(b - 1) >= 1,
        ;
    } else {
        lemma_fact_pos(a);
    }
}

proof fn lemma_fact_pos(a: int)
    ensures
        fact(a) >= 1,
    decreases a,
{
    if a > 0 {
        lemma_fact_pos(a - 1);
        assert(a * fact(a - 1) >= 1) by (nonlinear_arith)
            requires
                a >= 1,
                fact(a - 1) >= 1,
        ;
    }
}

/// `n!`, by multiplying `1 * 2 * ... * n`; 1 when `n <= 0`.
pub fn factorial(n: i32) -> (r: i32)
    requires
        fact(n as int) <= i32::MAX,
    ensures
        r == fact(n as int),
{
    let mut fact_acc: i32 = 1;
    if n <= 0 {
        return 1;
    }
    proof {
        reveal_with_fuel(fact, 14);
        assert(fact(13) == 6227020800);
        if n >= 13 {
            lemma_fact_grows(13, n as int);
        }
    }
    let mut i: i32 = 1;
    while i <= n
        invariant
            1 <= i <= n + 1,
            n <= 12,
            fact(n as int) <= i32::MAX,
            fact_acc == fact(i - 1),
        decreases n + 1 - i,
    {
        proof {
            lemma_fact_grows(i as int, n as int);
            assert(fact(i as int) == i * fact(i - 1));
        }
        fact_acc = fact_acc * i;
        i = i + 1;
    }
    fact_acc
}

/// Whether the token is a number: text that `f64::from_str` accepts, or text in which
/// the complex-number pattern matches.
pub fn is_string_numeric(str: String) -> (r: bool)
    ensures
        r == (float_syntax(str@) || known_outcome(complex_token_pattern(), str@) == Some(true)),
{
    let pat = "([0-9])*(\\+|\\-)?([0-9])+i";
    let m = regex_matches(pat, str.as_str());
    is_float_text(str.as_str()) || m == Some(true)
}

/// The operators in the order the evaluator applies them.
pub open spec fn operators() -> Seq<char> {
    seq!['P', 'C', '%', '!', '^', '/', '*', '-', '+']
}

/// The token is a one-character operator.
pub open spec fn is_operator(t: Seq<char>) -> bool {
    t.len() == 1 && operators().contains(t[0])
}

/// Whether the token is one of the operators `P C % ! ^ / * - +`.
pub fn is_string_operator(str: String) -> (r: bool)
    ensures
        r == is_operator(str@),
{
    let v = to_chars(str.as_str());
    if v.len() != 1 {
        return false;
    }
    let c = v[0];
    let r = c == 'P' || c == 'C' || c == '%' || c == '!' || c == '^' || c == '/' || c == '*'
        || c == '-' || c == '+';
    proof {
        let ops = operators();
        if r {
            if c == 'P' { assert(ops[0] == c); }
            if c == 'C' { assert(ops[1] == c); }
            if c == '%' { assert(ops[2] == c); }
            if c == '!' { assert(ops[3] == c); }
            if c == '^' { assert(ops[4] == c); }
            if c == '/' { assert(ops[5] == c); }
            if c == '*' { assert(ops[6] == c); }
            if c == '-' { assert(ops[7] == c); }
            if c == '+' { assert(ops[8] == c); }
        } else {
            assert forall|k: int| 0 <= k < ops.len() implies ops[k] != c by {}
        }
    }
    r
}


/// All the pieces of `s` around a non-empty separator, as `str::split` yields them.
pub fn split_pieces(s: &str, sep: &str) -> (r: Vec<String>)
    requires
        sep@.len() > 0,
    ensures
        r.deep_view() == split_spec(s@, sep@),
{
    let sv = to_chars(s);
    let p = to_chars(sep);
    let mut out: Vec<String> = Vec::new();
    let mut cur: Vec<char> = Vec::new();
    let mut i: usize = 0;
    proof {
        lemma_split_nonempty(sv@, p@);
        assert(sv@.skip(0) =~= sv@);
        assert(prefix_first(cur@, split_spec(sv@, p@)) =~= split_spec(sv@, p@));
    }
    while i < sv.len()
        invariant
            sv@ == s@,
            p@ == sep@,
            p.len() > 0,
            i <= sv.len(),
            out.deep_view() + prefix_first(cur@, split_spec(sv@.skip(i as int), p@)) == split_spec(sv@, p@),
        decreases sv.len() - i,
    {
        let ghost rest = sv@.skip(i as int);
        let ghost r = split_spec(rest, p@);
        if matches_at(&sv, &p, i) {
            proof {
                assert(rest.take(p.len() as int) =~= sv@.subrange(i as int, i + p.len()));
                let r2 = split_spec(sv@.skip(i + p.len()), p@);
                assert(sv@.skip(i as int).skip(p.len() as int) =~= sv@.skip(i + p.len()));
                lemma_split_nonempty(sv@.skip(i + p.len()), p@);
                assert(r == seq![Seq::<char>::empty()] + r2);
                assert(prefix_first(cur@, r) =~= seq![cur@] + r2);
                assert(prefix_first(Seq::<char>::empty(), r2) =~= r2);
            }
            let ghost before = out.deep_view();
            out.push(from_chars(cur.as_slice()));
            assert(out.deep_view() =~= before + seq![cur@]);
            cur = Vec::new();
            i = i + p.len();
        } else {
            proof {
                if p.len() <= rest.len() {
                    assert(rest.take(p.len() as int) =~= sv@.subrange(i as int, i + p.len()));
                }
                assert(rest.skip(1) =~= sv@.skip(i + 1));
                lemma_split_nonempty(sv@.skip(i + 1), p@);
                assert(rest[0] == sv@[i as int]);
            }
            let ghost old_cur = cur@;
            cur.push(sv[i]);
            proof {
                let r1 = split_spec(sv@.skip(i + 1), p@);
                assert(r == r1.update(0, seq![rest[0]] + r1[0]));
                assert(old_cur + (seq![rest[0]] + r1[0]) =~= cur@ + r1[0]);
                assert(prefix_first(old_cur, r) =~= prefix_first(cur@, r1));
            }
            i = i + 1;
        }
    }
    proof {
        assert(sv@.skip(i as int) =~= Seq::<char>::empty());
        assert(prefix_first(cur@, split_spec(Seq::<char>::empty(), p@)) =~= seq![cur@]);
    }
    let ghost before = out.deep_view();
    out.push(from_chars(cur.as_slice()));
    assert(out.deep_view() =~= before + seq![cur@]);
    out
}

/// The texts of the real and the imaginary part that `string_to_cmplx` reads a complex
/// number from. A leading `-` is taken off; the rest is split at `-` when it holds one,
/// else at `+`. One piece is the imaginary part when it holds `i` (the real part is `0`),
/// else the real part (the imaginary part is `0`); the leading `-` goes onto that piece.
/// With more pieces the first two are the parts, the leading `-` going onto the real one.
/// The imaginary text loses its `i`s and, when split at `-`, gains a leading `-`.
pub open spec fn complex_parts_spec(s: Seq<char>) -> (Seq<char>, Seq<char>) {
    let neg = s.len() > 0 && s[0] == '-';
    let b = if neg { s.skip(1) } else { s };
    let sign = if contains_spec(b, "-"@) { "-"@ } else { "+"@ };
    let g = split_spec(b, sign);
    let parts = if g.len() == 1 {
        if contains_spec(g[0], "i"@) {
            ("0"@, if neg { "-"@ + g[0] } else { g[0] })
        } else {
            (if neg { "-"@ + g[0] } else { g[0] }, "0"@)
        }
    } else {
        (if neg { "-"@ + g[0] } else { g[0] }, g[1])
    };
    (parts.0, if sign == "-"@ {
        replace_spec("-"@ + parts.1, "i"@, ""@)
    } else {
        replace_spec(parts.1, "i"@, ""@)
    })
}

/// The texts of the real and the imaginary part of a complex number (see `complex_parts_spec`).
pub fn complex_parts(inp: String) -> (r: (String, String))
    ensures
        (r.0@, r.1@) == complex_parts_spec(inp@),
{
    let cs = to_chars(inp.as_str());
    let negative = cs.len() > 0 && cs[0] == '-';
    let body = if negative {
        skip_chars(inp.as_str(), 1)
    } else {
        concat("", inp.as_str())
    };
    proof {
        reveal_strlit("");
        assert(""@ + inp@ =~= inp@);
        reveal_strlit("-");
        reveal_strlit("+");
    }
    let minus = contains(body.as_str(), "-");
    let sign = if minus { "-" } else { "+" };
    let groups = split_pieces(body.as_str(), sign);
    proof {
        lemma_split_nonempty(body@, sign@);
    }
    assert(groups.deep_view().len() == groups.len());
    let (first, second) = if groups.len() == 1 {
        let g0 = groups[0].as_str();
        assert(g0@ == groups.deep_view()[0]);
        if contains(g0, "i") {
            (String::from_str("0"), if negative { concat("-", g0) } else { concat("", g0) })
        } else {
            (if negative { concat("-", g0) } else { concat("", g0) }, String::from_str("0"))
        }
    } else {
        assert(groups[0]@ == groups.deep_view()[0]);
        assert(groups[1]@ == groups.deep_view()[1]);
        let g0 = groups[0].as_str();
        (if negative { concat("-", g0) } else { concat("", g0) }, groups[1].clone())
    };
    let imag = if minus {
        replace_all(concat("-", second.as_str()).as_str(), "i", "")
    } else {
        replace_all(second.as_str(), "i", "")
    };
    (first, imag)
}


/// `n! = n * (n - 1)!` for every positive `n`.
pub proof fn law_factorial_recurrence(n: int)
    requires
        n >= 1,
    ensures
        fact(n) == n * fact(n - 1),
{
}

/// `create_vecs_from_str` never yields an empty token.
pub proof fn law_tokens_not_empty(s: Seq<char>, sep: Seq<char>)
    ensures
        forall|k: int| 0 <= k < drop_empty(split_spec(s, sep)).len()
            ==> #[trigger] drop_empty(split_spec(s, sep))[k].len() > 0,
{
    lemma_drop_empty_nonempty(split_spec(s, sep));
}

proof fn lemma_drop_empty_nonempty(ps: Seq<Seq<char>>)
    ensures
        forall|k: int| 0 <= k < drop_empty(ps).len() ==> #[trigger] drop_empty(ps)[k].len() > 0,
    decreases ps.len(),
{
    if ps.len() > 0 {
        lemma_drop_empty_nonempty(ps.skip(1));
        if ps[0].len() > 0 {
            let r = drop_empty(ps);
            assert forall|k: int| 0 <= k < r.len() implies #[trigger] r[k].len() > 0 by {
                if k > 0 {
                    assert(r[k] == drop_empty(ps.skip(1))[k - 1]);
                }
            }
        }
    }
}

/// The runs joined back into one list, with `sep` between neighbouring runs.
pub open spec fn join_runs(rs: Seq<Seq<Seq<char>>>, sep: Seq<char>) -> Seq<Seq<char>>
    decreases rs.len(),
{
    if rs.len() == 0 {
        Seq::empty()
    } else if rs.len() == 1 {
        rs[0]
    } else {
        rs[0] + seq![sep] + join_runs(rs.skip(1), sep)
    }
}

proof fn lemma_join_runs_front(rs: Seq<Seq<Seq<char>>>, p: Seq<Seq<char>>, sep: Seq<char>)
    requires
        rs.len() >= 1,
    ensures
        join_runs(rs.update(0, p + rs[0]), sep) == p + join_runs(rs, sep),
{
    let q = rs.update(0, p + rs[0]);
    assert(q.skip(1) =~= rs.skip(1));
    if rs.len() > 1 {
        assert(p + rs[0] + seq![sep] + join_runs(rs.skip(1), sep) =~= p + (rs[0] + seq![sep] + join_runs(rs.skip(1), sep)));
    }
}

/// `create_2dvec_from_1dvecs` loses nothing: joining its runs again with the separator
/// gives back the token list, and no run holds the separator.
pub proof fn law_runs_join_back(v: Seq<Seq<char>>, sep: Seq<char>)
    ensures
        join_runs(split_tokens(v, sep), sep) == v,
        forall|k: int| 0 <= k < split_tokens(v, sep).len() ==> !(#[trigger] split_tokens(v, sep)[k]).contains(sep),
    decreases v.len(),
{
    if v.len() == 0 {
        assert(join_runs(seq![Seq::<Seq<char>>::empty()], sep) == Seq::<Seq<char>>::empty());
        assert(v =~= Seq::<Seq<char>>::empty());
    } else {
        law_runs_join_back(v.skip(1), sep);
        lemma_split_tokens_nonempty(v.skip(1), sep);
        let r = split_tokens(v.skip(1), sep);
        if v[0] == sep {
            let r2 = seq![Seq::<Seq<char>>::empty()] + r;
            assert(r2.skip(1) =~= r);
            assert(Seq::<Seq<char>>::empty() + seq![sep] + join_runs(r, sep) =~= v);
            assert forall|k: int| 0 <= k < r2.len() implies !(#[trigger] r2[k]).contains(sep) by {
                if k > 0 {
                    assert(r2[k] == r[k - 1]);
                }
            }
        } else {
            lemma_join_runs_front(r, seq![v[0]], sep);
            assert(seq![v[0]] + v.skip(1) =~= v);
            let r2 = r.update(0, seq![v[0]] + r[0]);
            assert forall|k: int| 0 <= k < r2.len() implies !(#[trigger] r2[k]).contains(sep) by {
                if k == 0 {
                    if (seq![v[0]] + r[0]).contains(sep) {
                        let j = choose|j: int| 0 <= j < (seq![v[0]] + r[0]).len() && (seq![v[0]] + r[0])[j] == sep;
                        if j > 0 {
                            assert(r[0][j - 1] == sep);
                        }
                    }
                }
            }
        }
    }
}

/// The pieces joined back into one text, with `sep` between neighbouring pieces.
pub open spec fn join_pieces(ps: Seq<Seq<char>>, sep: Seq<char>) -> Seq<char>
    decreases ps.len(),
{
    if ps.len() == 0 {
        Seq::empty()
    } else if ps.len() == 1 {
        ps[0]
    } else {
        ps[0] + sep + join_pieces(ps.skip(1), sep)
    }
}

proof fn lemma_join_pieces_front(ps: Seq<Seq<char>>, p: Seq<char>, sep: Seq<char>)
    requires
        ps.len() >= 1,
    ensures
        join_pieces(ps.update(0, p + ps[0]), sep) == p + join_pieces(ps, sep),
{
    let q = ps.update(0, p + ps[0]);
    assert(q.skip(1) =~= ps.skip(1));
    if ps.len() > 1 {
        assert(p + ps[0] + sep + join_pieces(ps.skip(1), sep) =~= p + (ps[0] + sep + join_pieces(ps.skip(1), sep)));
    }
}

proof fn lemma_join_singles(s: Seq<char>)
    ensures
        join_pieces(s.map_values(|c: char| seq![c]) + seq![Seq::<char>::empty()], Seq::<char>::empty()) == s,
    decreases s.len(),
{
    let e = Seq::<char>::empty();
    let x = s.map_values(|c: char| seq![c]) + seq![e];
    if s.len() == 0 {
        assert(x =~= seq![e]);
        assert(s =~= e);
    } else {
        lemma_join_singles(s.skip(1));
        assert(x.skip(1) =~= s.skip(1).map_values(|c: char| seq![c]) + seq![e]);
        assert(x[0] == seq![s[0]]);
        assert(seq![s[0]] + e + s.skip(1) =~= s);
    }
}

/// The first piece of a split is where the text begins.
proof fn lemma_split_first_is_prefix(s: Seq<char>, sep: Seq<char>)
    requires
        sep.len() > 0,
    ensures
        split_spec(s, sep)[0].len() <= s.len(),
        s.take(split_spec(s, sep)[0].len() as int) == split_spec(s, sep)[0],
    decreases s.len(),
{
    lemma_split_nonempty(s, sep);
    if s.len() > 0 && !(sep.len() <= s.len() && s.take(sep.len() as int) == sep) {
        lemma_split_first_is_prefix(s.skip(1), sep);
        lemma_split_nonempty(s.skip(1), sep);
        let r = split_spec(s.skip(1), sep);
        assert(s.take((1 + r[0].len()) as int) =~= seq![s[0]] + r[0]);
    } else if s.len() > 0 {
        assert(s.take(0) =~= Seq::<char>::empty());
    }
}

/// Splitting text loses nothing: joining the pieces of `str::split` again with the
/// separator gives back the text, and with a non-empty separator no piece holds it. So
/// the tokens of `create_vecs_from_str` hold no separator either.
pub proof fn law_pieces_join_back(s: Seq<char>, sep: Seq<char>)
    ensures
        join_pieces(split_spec(s, sep), sep) == s,
        sep.len() > 0 ==> forall|k: int| 0 <= k < split_spec(s, sep).len()
            ==> !contains_spec(#[trigger] split_spec(s, sep)[k], sep),
        sep.len() > 0 ==> forall|k: int| 0 <= k < drop_empty(split_spec(s, sep)).len()
            ==> !contains_spec(#[trigger] drop_empty(split_spec(s, sep))[k], sep),
    decreases s.len(),
{
    let e = Seq::<char>::empty();
    if sep.len() == 0 {
        let m = s.map_values(|c: char| seq![c]);
        let ps = seq![e] + m + seq![e];
        lemma_join_singles(s);
        assert(ps.skip(1) =~= m + seq![e]);
        assert(e + sep + join_pieces(m + seq![e], sep) =~= s);
    } else if s.len() == 0 {
        assert(join_pieces(seq![e], sep) == e);
        assert(s =~= e);
        assert(!contains_spec(e, sep));
        lemma_drop_empty_keeps_no_separator(split_spec(s, sep), sep);
    } else if sep.len() <= s.len() && s.take(sep.len() as int) == sep {
        law_pieces_join_back(s.skip(sep.len() as int), sep);
        lemma_split_nonempty(s.skip(sep.len() as int), sep);
        let r = split_spec(s.skip(sep.len() as int), sep);
        let ps = seq![e] + r;
        assert(ps.skip(1) =~= r);
        assert(e + sep + join_pieces(r, sep) =~= s);
        assert forall|k: int| 0 <= k < ps.len() implies !contains_spec(#[trigger] ps[k], sep) by {
            if k > 0 {
                assert(ps[k] == r[k - 1]);
            }
        }
        lemma_drop_empty_keeps_no_separator(ps, sep);
    } else {
        law_pieces_join_back(s.skip(1), sep);
        lemma_split_nonempty(s.skip(1), sep);
        lemma_split_first_is_prefix(s.skip(1), sep);
        let r = split_spec(s.skip(1), sep);
        lemma_join_pieces_front(r, seq![s[0]], sep);
        assert(seq![s[0]] + s.skip(1) =~= s);
        let ps = r.update(0, seq![s[0]] + r[0]);
        assert forall|k: int| 0 <= k < ps.len() implies !contains_spec(#[trigger] ps[k], sep) by {
            if k == 0 {
                let p0 = seq![s[0]] + r[0];
                assert(p0 =~= s.take(p0.len() as int));
                if contains_spec(p0, sep) {
                    let i = choose|i: int| occurs_at(p0, sep, i);
                    if i == 0 {
                        assert(s.take(sep.len() as int) =~= p0.subrange(0, sep.len() as int));
                    } else {
                        assert(r[0].subrange(i - 1, i - 1 + sep.len()) =~= p0.subrange(i, i + sep.len()));
                        assert(occurs_at(r[0], sep, i - 1));
                    }
                }
            }
        }
        lemma_drop_empty_keeps_no_separator(ps, sep);
    }
}

proof fn lemma_drop_empty_keeps_no_separator(ps: Seq<Seq<char>>, sep: Seq<char>)
    requires
        forall|k: int| 0 <= k < ps.len() ==> !contains_spec(#[trigger] ps[k], sep),
    ensures
        forall|k: int| 0 <= k < drop_empty(ps).len() ==> !contains_spec(#[trigger] drop_empty(ps)[k], sep),
    decreases ps.len(),
{
    if ps.len() > 0 {
        assert forall|k: int| 0 <= k < ps.skip(1).len() implies !contains_spec(#[trigger] ps.skip(1)[k], sep) by {
            assert(ps.skip(1)[k] == ps[k + 1]);
        }
        lemma_drop_empty_keeps_no_separator(ps.skip(1), sep);
        let d = drop_empty(ps.skip(1));
        if ps[0].len() > 0 {
            assert forall|k: int| 0 <= k < (seq![ps[0]] + d).len() implies !contains_spec(#[trigger] (seq![ps[0]] + d)[k], sep) by {
                if k > 0 {
                    assert((seq![ps[0]] + d)[k] == d[k - 1]);
                }
            }
        }
    }
}

} // verus!
