//! Rewriting steps on token lists: constants, signs, factorials, and bracket groups.

use vstd::prelude::*;
use crate::brackets::{
    balanced, close_kind, compare_brac, is_balanced, is_close, is_open, is_string_lbrac, is_string_rbrac, open_kind,
};
use crate::format::{apply_rules, apply_rules_exec, digit_char, owned, Rule};
use crate::numparse::{all_digits, digits_value, is_digit, parse_i32, parse_i32_spec, unsigned_part};
use crate::text::{append_chars, concat, from_chars, same_text, to_chars};
use crate::tokens::{create_vecs_from_str, drop_empty, factorial, fact, split_spec};

verus! {

/// The decimal digits of a natural number.
pub open spec fn nat_text(n: nat) -> Seq<char>
    decreases n,
{
    if n < 10 {
        seq![digit_char(n as int)]
    } else {
        nat_text(n / 10) + seq![digit_char((n % 10) as int)]
    }
}

/// The decimal form of an integer, with `-` before negative ones.
pub open spec fn int_text(n: int) -> Seq<char> {
    if n < 0 {
        seq!['-'] + nat_text((-n) as nat)
    } else {
        nat_text(n as nat)
    }
}

fn nat_digits(n: u64) -> (r: Vec<char>)
    ensures
        r@ == nat_text(n as nat),
    decreases n,
{
    let digits = ['0', '1', '2', '3', '4', '5', '6', '7', '8', '9'];
    assert(digits@ =~= seq!['0', '1', '2', '3', '4', '5', '6', '7', '8', '9']);
    if n < 10 {
        let mut v: Vec<char> = Vec::new();
        v.push(digits[n as usize]);
        assert(v@ =~= seq![digit_char(n as int)]);
        v
    } else {
        let mut v = nat_digits(n / 10);
        v.push(digits[(n % 10) as usize]);
        v
    }
}

/// The decimal text of an `i32`, as `to_string` writes it.
pub fn int_to_text(n: i32) -> (r: String)
    ensures
        r@ == int_text(n as int),
{
    if n < 0 {
        let m: u64 = (-(n as i64)) as u64;
        let mut v: Vec<char> = Vec::new();
        v.push('-');
        let d = nat_digits(m);
        append_chars(&mut v, &d);
        from_chars(v.as_slice())
    } else {
        let d = nat_digits(n as u64);
        from_chars(d.as_slice())
    }
}

/// The decimal text of a `usize`, as `to_string` writes it.
pub fn nat_to_text(n: usize) -> (r: String)
    ensures
        r@ == nat_text(n as nat),
{
    let d = nat_digits(n as u64);
    from_chars(d.as_slice())
}

/// The text of Euler's number as the calculator writes it.
pub open spec fn e_text() -> Seq<char> {
    "2.718281828459045"@
}

/// The text of pi as the calculator writes it.
pub open spec fn pi_text() -> Seq<char> {
    "3.141592653589793"@
}

/// A constant name replaced by its value; any other token unchanged.
pub open spec fn const_value(t: Seq<char>) -> Seq<char> {
    if t == "e"@ {
        e_text()
    } else if t == "pi"@ {
        pi_text()
    } else {
        t
    }
}

/// Every token `e` or `pi` replaced by the constant's value.
pub fn constants(inp_vec: Vec<String>) -> (r: Vec<String>)
    ensures
        r.deep_view() == inp_vec.deep_view().map_values(|t: Seq<char>| const_value(t)),
{
    let ghost target = inp_vec.deep_view().map_values(|t: Seq<char>| const_value(t));
    let mut out: Vec<String> = Vec::new();
    let mut i: usize = 0;
    while i < inp_vec.len()
        invariant
            i <= inp_vec.len(),
            target == inp_vec.deep_view().map_values(|t: Seq<char>| const_value(t)),
            out.deep_view() == target.take(i as int),
        decreases inp_vec.len() - i,
    {
        let t = inp_vec[i].as_str();
        let v = if same_text(t, "e") {
            "2.718281828459045".to_owned()
        } else if same_text(t, "pi") {
            "3.141592653589793".to_owned()
        } else {
            t.to_owned()
        };
        assert(v@ == target[i as int]);
        let ghost before = out.deep_view();
        out.push(v);
        assert(out.deep_view() =~= before.push(target[i as int]));
        assert(target.take(i as int + 1) =~= target.take(i as int).push(target[i as int]));
        i = i + 1;
    }
    assert(target.take(inp_vec.len() as int) =~= target);
    out
}

/// One token of `neg_fixer`: token `ind` of the input `v`, which stands at index
/// `ind - removed` of the current list `temp` once `removed` tokens before it have been
/// taken out. A `-` makes the next token negative; after `/` or `*` the `-` itself is
/// taken out, otherwise it becomes `+`. `None` for a `-` with no token after it.
pub open spec fn neg_step(v: Seq<Seq<char>>, temp: Seq<Seq<char>>, removed: int, ind: int) -> Option<(Seq<Seq<char>>, int)> {
    if v[ind] == "-"@ {
        let j = ind - removed;
        if ind + 1 >= v.len() {
            None
        } else if ind > 0 && (v[ind - 1] == "/"@ || v[ind - 1] == "*"@) {
            Some((temp.update(j + 1, "-"@ + v[ind + 1]).remove(j), removed + 1))
        } else {
            Some((temp.update(j, "+"@).update(j + 1, "-"@ + v[ind + 1]), removed))
        }
    } else {
        Some((temp, removed))
    }
}

/// `neg_fixer` after the first `n` tokens of the input: the current list and how many
/// tokens were taken out.
pub open spec fn neg_upto(v: Seq<Seq<char>>, n: int) -> Option<(Seq<Seq<char>>, int)>
    decreases n,
{
    if n <= 0 {
        Some((v, 0))
    } else {
        match neg_upto(v, n - 1) {
            Some((temp, removed)) => neg_step(v, temp, removed, n - 1),
            None => None,
        }
    }
}

/// What `neg_fixer` makes of the tokens: every `-` becomes `+` with the sign moved onto
/// the next token, except after `/` or `*` where the `-` is dropped and the next token
/// made negative; lists shorter than two tokens are kept. `None` when the last token is
/// a `-`, which has nothing to make negative.
pub open spec fn neg_fixer_spec(v: Seq<Seq<char>>) -> Option<Seq<Seq<char>>> {
    if v.len() >= 2 {
        match neg_upto(v, v.len() as int) {
            Some((temp, _)) => Some(temp),
            None => None,
        }
    } else {
        Some(v)
    }
}

/// Once the pass is `None`, it stays `None`.
proof fn lemma_neg_stays_none(v: Seq<Seq<char>>, n: int, m: int)
    requires
        0 <= n <= m,
        neg_upto(v, n) is None,
    ensures
        neg_upto(v, m) is None,
    decreases m - n,
{
    if n < m {
        lemma_neg_stays_none(v, n, m - 1);
    }
}

/// `neg_fixer`, or `None` when the last token is a `-`.
pub fn try_neg_fixer(new_inp_vec: Vec<String>) -> (r: Option<Vec<String>>)
    ensures
        r is Some <==> neg_fixer_spec(new_inp_vec.deep_view()) is Some,
        r matches Some(x) ==> Some(x.deep_view()) == neg_fixer_spec(new_inp_vec.deep_view()),
{
    let ghost v = new_inp_vec.deep_view();
    let mut inp_vec_temp = new_inp_vec.clone();
    assert(inp_vec_temp.deep_view() =~= v) by {
        assert forall|k: int| 0 <= k < v.len() implies #[trigger] inp_vec_temp.deep_view()[k] == v[k] by {
            assert(inp_vec_temp@[k] == new_inp_vec@[k]);
        }
    }
    if new_inp_vec.len() < 2 {
        return Some(inp_vec_temp);
    }
    let mut removed: usize = 0;
    let mut ind: usize = 0;
    while ind < new_inp_vec.len()
        invariant
            ind <= new_inp_vec.len(),
            v == new_inp_vec.deep_view(),
            v.len() >= 2,
            removed <= ind,
            inp_vec_temp.len() + removed == new_inp_vec.len(),
            neg_upto(v, ind as int) == Some((inp_vec_temp.deep_view(), removed as int)),
        decreases new_inp_vec.len() - ind,
    {
        let t = new_inp_vec[ind].as_str();
        assert(new_inp_vec[ind as int]@ == v[ind as int]);
        if same_text(t, "-") {
            if ind + 1 >= new_inp_vec.len() {
                proof {
                    lemma_neg_stays_none(v, ind as int + 1, v.len() as int);
                }
                return None;
            }
            let j = ind - removed;
            assert(new_inp_vec[ind + 1]@ == v[ind + 1]);
            let next = new_inp_vec[ind + 1].as_str();
            let neg_next = concat("-", next);
            let after_times_or_over = ind > 0 && (same_text(new_inp_vec[ind - 1].as_str(), "/")
                || same_text(new_inp_vec[ind - 1].as_str(), "*"));
            proof {
                if ind > 0 {
                    assert(new_inp_vec[ind - 1]@ == v[ind - 1]);
                }
            }
            if after_times_or_over {
                let ghost before = inp_vec_temp.deep_view();
                inp_vec_temp.set(j + 1, neg_next);
                inp_vec_temp.remove(j);
                assert(inp_vec_temp.deep_view() =~= before.update(j + 1, "-"@ + v[ind + 1]).remove(j as int));
                removed = removed + 1;
            } else {
                let ghost before = inp_vec_temp.deep_view();
                inp_vec_temp.set(j, "+".to_owned());
                inp_vec_temp.set(j + 1, neg_next);
                assert(inp_vec_temp.deep_view() =~= before.update(j as int, "+"@).update(j + 1, "-"@ + v[ind + 1]));
            }
        }
        ind = ind + 1;
    }
    Some(inp_vec_temp)
}

/// Makes negative numbers explicit: every `-` becomes `+` with the next token negated,
/// except after `/` or `*` where the `-` is dropped and the next token negated.
pub fn neg_fixer(new_inp_vec: Vec<String>) -> (r: Vec<String>)
    requires
        neg_fixer_spec(new_inp_vec.deep_view()) is Some,
    ensures
        Some(r.deep_view()) == neg_fixer_spec(new_inp_vec.deep_view()),
{
    match try_neg_fixer(new_inp_vec) {
        Some(r) => r,
        None => Vec::new(),
    }
}


/// The factorials of the list `temp` from index `ind` on, with `errs` operands that were
/// not integers so far. A `!` takes the token just before it in the current list: when
/// that token is an integer, it is replaced by its factorial; either way the `!` is
/// removed, and the token after it is looked at next (a `!` on anything but an integer
/// counts one more error). `None` where no result exists: a `!` with nothing before it,
/// or a factorial past `i32::MAX`.
pub open spec fn one_operand_from(temp: Seq<Seq<char>>, ind: int, errs: nat) -> Option<(Seq<Seq<char>>, nat)>
    decreases temp.len() - ind,
{
    if ind < 0 || ind >= temp.len() {
        Some((temp, errs))
    } else if temp[ind] == "!"@ {
        if ind == 0 {
            None
        } else {
            match parse_i32_spec(temp[ind - 1]) {
                Some(value) => if fact(value as int) > i32::MAX {
                    None
                } else {
                    one_operand_from(temp.update(ind - 1, int_text(fact(value as int))).remove(ind), ind, errs)
                },
                None => one_operand_from(temp.remove(ind), ind, errs + 1),
            }
        }
    } else {
        one_operand_from(temp, ind + 1, errs)
    }
}

/// The factorials of a token list and the number of `!` whose operand was no integer;
/// `None` where no result exists.
pub open spec fn one_operand_spec(v: Seq<Seq<char>>) -> Option<(Seq<Seq<char>>, nat)> {
    one_operand_from(v, 0, 0)
}

/// Applies every postfix factorial `n !` (see `one_operand_from`); also returns how many
/// `!` had an operand that was no integer (each of those is reported to the user), or
/// `None` on the inputs where no result exists.
pub fn try_operation_one_operand(oper_vec: Vec<String>) -> (r: Option<(Vec<String>, usize)>)
    ensures
        r is Some <==> one_operand_spec(oper_vec.deep_view()) is Some,
        r matches Some(x) ==> one_operand_spec(oper_vec.deep_view()) == Some((x.0.deep_view(), x.1 as nat)),
{
    let ghost orig = oper_vec.deep_view();
    let mut temp_vec = oper_vec.clone();
    assert(temp_vec.deep_view() =~= orig) by {
        assert forall|k: int| 0 <= k < orig.len() implies #[trigger] temp_vec.deep_view()[k] == orig[k] by {
            assert(temp_vec@[k] == oper_vec@[k]);
        }
    }
    let mut errs: usize = 0;
    let mut ind: usize = 0;
    while ind < temp_vec.len()
        invariant
            orig == oper_vec.deep_view(),
            temp_vec.len() + errs <= oper_vec.len(),
            one_operand_spec(orig) == one_operand_from(temp_vec.deep_view(), ind as int, errs as nat),
        decreases temp_vec.len() - ind,
    {
        let ghost temp = temp_vec.deep_view();
        if same_text(temp_vec[ind].as_str(), "!") {
            if ind == 0 {
                return None;
            }
            assert(temp_vec[ind - 1]@ == temp[ind - 1]);
            match parse_i32(temp_vec[ind - 1].as_str()) {
                Some(value) => {
                    if value > 12 {
                        proof {
                            reveal_with_fuel(fact, 14);
                            assert(fact(13) == 6227020800);
                            crate::tokens::lemma_fact_grows(13, value as int);
                        }
                        return None;
                    }
                    proof {
                        if value >= 0 {
                            reveal_with_fuel(fact, 14);
                            crate::tokens::lemma_fact_grows(value as int, 12);
                        }
                        assert(fact(12) == 479001600) by {
                            reveal_with_fuel(fact, 13);
                        }
                    }
                    let out = factorial(value);
                    temp_vec.set(ind - 1, int_to_text(out));
                    temp_vec.remove(ind);
                    assert(temp_vec.deep_view() =~= temp.update(ind - 1, int_text(fact(value as int))).remove(ind as int));
                },
                None => {
                    temp_vec.remove(ind);
                    assert(temp_vec.deep_view() =~= temp.remove(ind as int));
                    errs = errs + 1;
                },
            }
        } else {
            ind = ind + 1;
        }
    }
    Some((temp_vec, errs))
}

/// Applies every postfix factorial `n !` (see `one_operand_from`); also returns how many
/// `!` had an operand that was no integer, which the caller reports to the user.
pub fn operation_one_operand(oper_vec: Vec<String>) -> (r: (Vec<String>, usize))
    requires
        one_operand_spec(oper_vec.deep_view()) is Some,
    ensures
        one_operand_spec(oper_vec.deep_view()) == Some((r.0.deep_view(), r.1 as nat)),
{
    match try_operation_one_operand(oper_vec) {
        Some(r) => r,
        None => (Vec::new(), 0),
    }
}


/// The concatenation of all the texts, in order.
pub open spec fn join_all(ts: Seq<Seq<char>>) -> Seq<char>
    decreases ts.len(),
{
    if ts.len() == 0 {
        seq![]
    } else {
        join_all(ts.drop_last()) + ts.last()
    }
}

/// The concatenation of the tokens `from..to`, as `join("")` gives it.
pub fn join_tokens(ts: &Vec<String>, from: usize, to: usize) -> (r: String)
    requires
        from <= to <= ts.len(),
    ensures
        r@ == join_all(ts.deep_view().subrange(from as int, to as int)),
{
    let ghost tv = ts.deep_view().subrange(from as int, to as int);
    let mut out: Vec<char> = Vec::new();
    let mut i: usize = from;
    while i < to
        invariant
            from <= i <= to <= ts.len(),
            tv == ts.deep_view().subrange(from as int, to as int),
            out@ == join_all(tv.take(i - from)),
        decreases to - i,
    {
        let piece = to_chars(ts[i].as_str());
        append_chars(&mut out, &piece);
        assert(tv.take(i - from + 1).drop_last() =~= tv.take(i - from));
        assert(tv[i - from] == ts.deep_view()[i as int]);
        i = i + 1;
    }
    assert(tv.take(to - from) =~= tv);
    from_chars(out.as_slice())
}

/// The rules that set brackets apart before `remove_surr_bracs` splits its input.
pub open spec fn surr_rules() -> Seq<Rule> {
    seq![
        ("["@, "[ "@), ("]"@, " ] "@), ("{"@, " { "@), ("}"@, " } "@), ("("@, " ( "@), (")"@, " ) "@),
    ]
}

/// The tokens `remove_surr_bracs` works on.
pub open spec fn surr_tokens(s: Seq<char>) -> Seq<Seq<char>> {
    drop_empty(split_spec(apply_rules(s, surr_rules()), seq![' ']))
}

/// The tokens are enclosed by a pair of brackets: they start with an opening bracket and
/// end with a closing bracket of the same kind, and the tokens in between are balanced,
/// so that the first and the last bracket are partners.
pub open spec fn enclosed(t: Seq<Seq<char>>) -> bool {
    &&& t.len() >= 2
    &&& is_open(t[0])
    &&& is_close(t.last())
    &&& open_kind(t[0]) == close_kind(t.last())
    &&& balanced(t.subrange(1, t.len() - 1))
}

/// The input without spaces, and without its enclosing pair of brackets when it has one
/// (see `enclosed`); `None` for a text of spaces only, which has no token at all.
pub open spec fn remove_surr_bracs_spec(s: Seq<char>) -> Option<Seq<char>> {
    let t = surr_tokens(s);
    if t.len() == 0 {
        None
    } else if enclosed(t) {
        Some(join_all(t.subrange(1, t.len() - 1)))
    } else {
        Some(join_all(t))
    }
}

/// `remove_surr_bracs`, or `None` on the inputs where it fails.
pub fn try_remove_surr_bracs(inp: String) -> (r: Option<String>)
    ensures
        r is Some <==> remove_surr_bracs_spec(inp@) is Some,
        r matches Some(x) ==> remove_surr_bracs_spec(inp@) == Some(x@),
{
    let mut rules: Vec<(String, String)> = Vec::new();
    rules.push((owned("["), owned("[ ")));
    rules.push((owned("]"), owned(" ] ")));
    rules.push((owned("{"), owned(" { ")));
    rules.push((owned("}"), owned(" } ")));
    rules.push((owned("("), owned(" ( ")));
    rules.push((owned(")"), owned(" ) ")));
    assert(rules.deep_view() =~= surr_rules());
    let new_inp = apply_rules_exec(inp, &rules);
    proof {
        reveal_strlit(" ");
        assert(" "@ =~= seq![' ']);
    }
    let inp_vec = create_vecs_from_str(new_inp, " ");
    let ghost t = inp_vec.deep_view();
    assert(t == surr_tokens(inp@));
    if inp_vec.len() == 0 {
        return None;
    }
    let n = inp_vec.len();
    assert(t.subrange(0, n as int) =~= t);
    let whole = join_tokens(&inp_vec, 0, n);
    if n >= 2 && is_string_lbrac(inp_vec[0].clone()) && is_string_rbrac(inp_vec[n - 1].clone()) {
        let mut inner: Vec<String> = Vec::new();
        let mut k: usize = 1;
        while k < n - 1
            invariant
                n == inp_vec.len(),
                n >= 2,
                1 <= k <= n - 1,
                t == inp_vec.deep_view(),
                inner.deep_view() == t.subrange(1, k as int),
            decreases n - 1 - k,
        {
            let tok = inp_vec[k].clone();
            assert(tok@ == t[k as int]);
            let ghost before = inner.deep_view();
            inner.push(tok);
            assert(inner.deep_view() =~= before.push(t[k as int]));
            assert(t.subrange(1, k + 1) =~= t.subrange(1, k as int).push(t[k as int]));
            k = k + 1;
        }
        assert(inp_vec[0]@ == t[0]);
        assert(inp_vec[n - 1]@ == t[n - 1]);
        let same_kind = compare_brac(inp_vec[0].clone(), inp_vec[n - 1].clone()) == 0;
        if same_kind && is_balanced(&inner) {
            Some(join_tokens(&inp_vec, 1, n - 1))
        } else {
            Some(whole)
        }
    } else {
        Some(whole)
    }
}

/// The input without spaces, and without its enclosing pair of brackets when it has one
/// (see `enclosed`).
pub fn remove_surr_bracs(inp: String) -> (r: String)
    requires
        remove_surr_bracs_spec(inp@) is Some,
    ensures
        remove_surr_bracs_spec(inp@) == Some(r@),
{
    match try_remove_surr_bracs(inp) {
        Some(r) => r,
        None => String::new(),
    }
}


/// The index of the first closing bracket at or after `i`, or the length when none.
pub open spec fn first_close_from(v: Seq<Seq<char>>, i: int) -> int
    decreases v.len() - i,
{
    if i < 0 || i >= v.len() {
        v.len() as int
    } else if is_close(v[i]) {
        i
    } else {
        first_close_from(v, i + 1)
    }
}

/// The index of the last opening bracket before `j`, or 0 when none.
pub open spec fn last_open_before(v: Seq<Seq<char>>, j: int) -> int
    decreases j,
{
    if j <= 0 {
        0
    } else if is_open(v[j - 1]) {
        j - 1
    } else {
        last_open_before(v, j - 1)
    }
}

/// The innermost bracket group to evaluate first: `(l, r, found)` where `r` is the first
/// closing bracket and `l` the last opening bracket before it; with no closing bracket,
/// `r` is the last index and `found` is false. `l` is 0 when no opening bracket precedes.
pub open spec fn innermost_group_spec(v: Seq<Seq<char>>) -> (int, int, bool) {
    let j = first_close_from(v, 0);
    if j < v.len() {
        (last_open_before(v, j), j, true)
    } else {
        (last_open_before(v, v.len() as int), v.len() - 1, false)
    }
}

/// Finds the innermost bracket group (see `innermost_group_spec`).
pub fn innermost_group(inp_vec: &Vec<String>) -> (r: (usize, usize, bool))
    requires
        inp_vec.len() > 0,
    ensures
        (r.0 as int, r.1 as int, r.2) == innermost_group_spec(inp_vec.deep_view()),
{
    let ghost v = inp_vec.deep_view();
    let mut l_ind: usize = 0;
    let mut ind: usize = 0;
    while ind < inp_vec.len()
        invariant
            v == inp_vec.deep_view(),
            ind <= inp_vec.len(),
            l_ind as int == last_open_before(v, ind as int),
            first_close_from(v, 0) == first_close_from(v, ind as int),
        decreases inp_vec.len() - ind,
    {
        assert(inp_vec[ind as int]@ == v[ind as int]);
        if is_string_lbrac(inp_vec[ind].clone()) {
            l_ind = ind;
        } else if is_string_rbrac(inp_vec[ind].clone()) {
            return (l_ind, ind, true);
        }
        ind = ind + 1;
    }
    (l_ind, inp_vec.len() - 1, false)
}

/// The tokens with the brackets around position `l + 1` removed: `v[..l] + [v[l+1]] + v[l+3..]`.
pub fn drop_group_brackets(inp_vec: &Vec<String>, l_ind: usize) -> (r: Vec<String>)
    requires
        l_ind + 3 <= inp_vec.len(),
    ensures
        r.deep_view() == inp_vec.deep_view().take(l_ind as int) + seq![inp_vec.deep_view()[l_ind + 1]]
            + inp_vec.deep_view().skip(l_ind + 3),
{
    let mut out: Vec<String> = Vec::new();
    let mut k: usize = 0;
    let ghost v = inp_vec.deep_view();
    while k < inp_vec.len()
        invariant
            k <= inp_vec.len(),
            l_ind + 3 <= inp_vec.len(),
            v == inp_vec.deep_view(),
            out.deep_view() == if k <= l_ind {
                v.take(k as int)
            } else if k <= l_ind + 1 {
                v.take(l_ind as int)
            } else if k <= l_ind + 3 {
                v.take(l_ind as int) + seq![v[l_ind + 1]]
            } else {
                v.take(l_ind as int) + seq![v[l_ind + 1]] + v.subrange(l_ind + 3, k as int)
            },
        decreases inp_vec.len() - k,
    {
        let ghost before = out.deep_view();
        if k < l_ind || k == l_ind + 1 || k >= l_ind + 3 {
            let t = inp_vec[k].clone();
            assert(t@ == v[k as int]);
            out.push(t);
            assert(out.deep_view() =~= before.push(v[k as int]));
        }
        proof {
            if k < l_ind {
                assert(v.take(k + 1) =~= v.take(k as int).push(v[k as int]));
            } else if k == l_ind + 1 {
                assert(out.deep_view() =~= v.take(l_ind as int) + seq![v[l_ind + 1]]);
            } else if k == l_ind + 2 {
                assert(v.subrange(l_ind + 3, l_ind + 3) =~= Seq::<Seq<char>>::empty());
            } else if k >= l_ind + 3 {
                assert(v.subrange(l_ind + 3, k + 1) =~= v.subrange(l_ind + 3, k as int).push(v[k as int]));
            }
        }
        k = k + 1;
    }
    assert(v.subrange(l_ind + 3, v.len() as int) =~= v.skip(l_ind + 3));
    if l_ind + 3 == inp_vec.len() {
        assert(v.skip(l_ind + 3) =~= Seq::<Seq<char>>::empty());
        assert(out.deep_view() =~= v.take(l_ind as int) + seq![v[l_ind + 1]] + v.skip(l_ind + 3));
    }
    out
}

/// `v[..l] + mid + v[r+1..]`, and the end index of the group after the replacement:
/// `l + mid.len() - 1` when the group shrank, `r` otherwise.
pub fn splice_group(inp_vec: &Vec<String>, l_ind: usize, r_ind: usize, mid: &Vec<String>) -> (r: (Vec<String>, usize))
    requires
        l_ind <= r_ind < inp_vec.len(),
        mid.len() >= 1,
    ensures
        r.0.deep_view() == inp_vec.deep_view().take(l_ind as int) + mid.deep_view() + inp_vec.deep_view().skip(r_ind + 1),
        r.1 == if mid.len() - 1 < r_ind - l_ind { l_ind + mid.len() - 1 } else { r_ind as int },
{
    let ghost v = inp_vec.deep_view();
    let ghost target = v.take(l_ind as int) + mid.deep_view() + v.skip(r_ind + 1);
    let mut out: Vec<String> = Vec::new();
    let mut k: usize = 0;
    while k < l_ind
        invariant
            k <= l_ind <= r_ind < inp_vec.len(),
            v == inp_vec.deep_view(),
            out.deep_view() == v.take(k as int),
        decreases l_ind - k,
    {
        let t = inp_vec[k].clone();
        assert(t@ == v[k as int]);
        let ghost before = out.deep_view();
        out.push(t);
        assert(out.deep_view() =~= before.push(v[k as int]));
        assert(v.take(k + 1) =~= v.take(k as int).push(v[k as int]));
        k = k + 1;
    }
    let mut m: usize = 0;
    while m < mid.len()
        invariant
            m <= mid.len(),
            out.deep_view() == v.take(l_ind as int) + mid.deep_view().take(m as int),
        decreases mid.len() - m,
    {
        let t = mid[m].clone();
        assert(t@ == mid.deep_view()[m as int]);
        let ghost before = out.deep_view();
        out.push(t);
        assert(out.deep_view() =~= before.push(mid.deep_view()[m as int]));
        assert(mid.deep_view().take(m + 1) =~= mid.deep_view().take(m as int).push(mid.deep_view()[m as int]));
        assert(v.take(l_ind as int) + mid.deep_view().take(m + 1) =~= before.push(mid.deep_view()[m as int]));
        m = m + 1;
    }
    assert(mid.deep_view().take(mid.len() as int) =~= mid.deep_view());
    let mut k: usize = r_ind + 1;
    while k < inp_vec.len()
        invariant
            r_ind + 1 <= k <= inp_vec.len(),
            v == inp_vec.deep_view(),
            out.deep_view() == v.take(l_ind as int) + mid.deep_view() + v.subrange(r_ind + 1, k as int),
        decreases inp_vec.len() - k,
    {
        let t = inp_vec[k].clone();
        assert(t@ == v[k as int]);
        let ghost before = out.deep_view();
        out.push(t);
        assert(out.deep_view() =~= before.push(v[k as int]));
        assert(v.subrange(r_ind + 1, k + 1) =~= v.subrange(r_ind + 1, k as int).push(v[k as int]));
        assert(v.take(l_ind as int) + mid.deep_view() + v.subrange(r_ind + 1, k + 1) =~= before.push(v[k as int]));
        k = k + 1;
    }
    assert(v.subrange(r_ind + 1, v.len() as int) =~= v.skip(r_ind + 1));
    let new_r = if mid.len() - 1 < r_ind - l_ind {
        l_ind + mid.len() - 1
    } else {
        r_ind
    };
    (out, new_r)
}


/// After `constants`, no token names a constant any more.
pub proof fn law_constants_leave_no_names(t: Seq<char>)
    ensures
        const_value(t) != "e"@,
        const_value(t) != "pi"@,
{
    reveal_strlit("e");
    reveal_strlit("pi");
    reveal_strlit("2.718281828459045");
    reveal_strlit("3.141592653589793");
    if const_value(t) == "e"@ {
        assert(const_value(t).len() == 1);
    }
    if const_value(t) == "pi"@ {
        assert(const_value(t).len() == 2);
    }
}

/// The digit of a number below ten is that digit character.
pub proof fn lemma_digit_char(k: int)
    requires
        0 <= k < 10,
    ensures
        is_digit(digit_char(k)),
        digit_char(k) as int - '0' as int == k,
{
    let d = seq!['0', '1', '2', '3', '4', '5', '6', '7', '8', '9'];
    assert(digit_char(k) == d[k]);
    if k == 0 { assert(d[k] == '0'); }
    else if k == 1 { assert(d[k] == '1'); }
    else if k == 2 { assert(d[k] == '2'); }
    else if k == 3 { assert(d[k] == '3'); }
    else if k == 4 { assert(d[k] == '4'); }
    else if k == 5 { assert(d[k] == '5'); }
    else if k == 6 { assert(d[k] == '6'); }
    else if k == 7 { assert(d[k] == '7'); }
    else if k == 8 { assert(d[k] == '8'); }
    else { assert(d[k] == '9'); }
}

/// The decimal text of a natural number is made of digits and has that number as value.
pub proof fn lemma_nat_text_digits(m: nat)
    ensures
        nat_text(m).len() > 0,
        all_digits(nat_text(m)),
        digits_value(nat_text(m)) == m,
    decreases m,
{
    if m < 10 {
        lemma_digit_char(m as int);
        assert(seq![digit_char(m as int)].drop_last() =~= Seq::<char>::empty());
        assert(digits_value(Seq::<char>::empty()) == 0);
    } else {
        lemma_nat_text_digits(m / 10);
        lemma_digit_char((m % 10) as int);
        let t = nat_text(m);
        assert(t.drop_last() =~= nat_text(m / 10));
        assert(t.last() == digit_char((m % 10) as int));
        assert((m / 10) * 10 + m % 10 == m) by (nonlinear_arith);
        assert(digits_value(t) == digits_value(t.drop_last()) * 10 + (t.last() as int - '0' as int));
        assert forall|i: int| 0 <= i < t.len() implies is_digit(#[trigger] t[i]) by {
            if i < t.len() - 1 {
                assert(t[i] == nat_text(m / 10)[i]);
            }
        }
    }
}

/// Reading back an integer as `to_string` wrote it gives the integer.
pub proof fn law_integer_text_round_trip(n: i32)
    ensures
        parse_i32_spec(int_text(n as int)) == Some(n),
{
    if n < 0 {
        let m = (-n) as nat;
        lemma_nat_text_digits(m);
        let t = int_text(n as int);
        assert(t[0] == '-');
        assert(t.skip(1) =~= nat_text(m));
        assert(unsigned_part(t) == nat_text(m));
    } else {
        let m = n as nat;
        lemma_nat_text_digits(m);
        let t = int_text(n as int);
        assert(is_digit(t[0]));
        assert(unsigned_part(t) == t);
    }
}

proof fn lemma_first_close(v: Seq<Seq<char>>, i: int)
    requires
        0 <= i <= v.len(),
    ensures
        i <= first_close_from(v, i) <= v.len(),
        first_close_from(v, i) < v.len() ==> is_close(v[first_close_from(v, i)]),
        forall|k: int| i <= k < first_close_from(v, i) ==> !is_close(#[trigger] v[k]),
    decreases v.len() - i,
{
    if i < v.len() && !is_close(v[i]) {
        lemma_first_close(v, i + 1);
    }
}

proof fn lemma_last_open(v: Seq<Seq<char>>, j: int)
    requires
        0 <= j <= v.len(),
    ensures
        0 <= last_open_before(v, j),
        j > 0 ==> last_open_before(v, j) < j,
        (j > 0 && is_open(v[last_open_before(v, j)]))
            || (last_open_before(v, j) == 0 && forall|k: int| 0 <= k < j ==> !is_open(#[trigger] v[k])),
        forall|k: int| last_open_before(v, j) < k < j ==> !is_open(#[trigger] v[k]),
    decreases j,
{
    if j > 0 && !is_open(v[j - 1]) {
        lemma_last_open(v, j - 1);
    }
}

/// The group worked on first is an innermost one: `r` is the first closing bracket (and
/// one is found exactly when the tokens hold a closing bracket), `l` is the last opening
/// bracket before it, with no opening bracket in between; `l` is `0` when no opening
/// bracket comes before. With no closing bracket, the group runs to the last token.
pub proof fn law_innermost_group_is_innermost(v: Seq<Seq<char>>)
    requires
        v.len() > 0,
    ensures
        ({
            let (l, r, found) = innermost_group_spec(v);
            &&& 0 <= l <= r < v.len()
            &&& found <==> exists|i: int| 0 <= i < v.len() && is_close(#[trigger] v[i])
            &&& found ==> is_close(v[r]) && forall|i: int| 0 <= i < r ==> !is_close(#[trigger] v[i])
            &&& !found ==> r == v.len() - 1
            &&& is_open(v[l]) || forall|i: int| 0 <= i <= r && !is_close(v[i]) ==> !is_open(#[trigger] v[i])
            &&& forall|i: int| l < i <= r && !is_close(v[i]) ==> !is_open(#[trigger] v[i])
        }),
{
    lemma_first_close(v, 0);
    let j = first_close_from(v, 0);
    if j < v.len() {
        lemma_last_open(v, j);
        if j == 0 {
            assert(last_open_before(v, 0) == 0);
        }
    } else {
        lemma_last_open(v, v.len() as int);
        assert(!exists|i: int| 0 <= i < v.len() && is_close(#[trigger] v[i]));
    }
}

/// Through tokens that are not `-`, the pass changes nothing.
proof fn lemma_neg_upto_plain(v: Seq<Seq<char>>, m: int, n: int, temp: Seq<Seq<char>>, removed: int)
    requires
        0 <= m <= n <= v.len(),
        neg_upto(v, m) == Some((temp, removed)),
        forall|i: int| m <= i < n ==> #[trigger] v[i] != "-"@,
    ensures
        neg_upto(v, n) == Some((temp, removed)),
    decreases n - m,
{
    if m < n {
        lemma_neg_upto_plain(v, m, n - 1, temp, removed);
        assert(v[n - 1] != "-"@);
    }
}

/// A single minus sign: in a list whose only `-` token stands at `j`, before another
/// token, that token is made negative; the `-` is dropped after `/` or `*` and becomes
/// `+` anywhere else, and nothing else changes.
pub proof fn law_single_minus_moves_onto_next(v: Seq<Seq<char>>, j: int)
    requires
        0 <= j < v.len() - 1,
        v[j] == "-"@,
        forall|i: int| 0 <= i < v.len() && i != j ==> #[trigger] v[i] != "-"@,
    ensures
        neg_fixer_spec(v) == Some(
            if j > 0 && (v[j - 1] == "/"@ || v[j - 1] == "*"@) {
                v.take(j) + seq!["-"@ + v[j + 1]] + v.skip(j + 2)
            } else {
                v.take(j) + seq!["+"@, "-"@ + v[j + 1]] + v.skip(j + 2)
            },
        ),
{
    lemma_neg_upto_plain(v, 0, j, v, 0);
    let after = if j > 0 && (v[j - 1] == "/"@ || v[j - 1] == "*"@) {
        (v.update(j + 1, "-"@ + v[j + 1]).remove(j), 1int)
    } else {
        (v.update(j, "+"@).update(j + 1, "-"@ + v[j + 1]), 0int)
    };
    assert(neg_upto(v, j + 1) == Some(after));
    lemma_neg_upto_plain(v, j + 1, v.len() as int, after.0, after.1);
    if j > 0 && (v[j - 1] == "/"@ || v[j - 1] == "*"@) {
        assert(after.0 =~= v.take(j) + seq!["-"@ + v[j + 1]] + v.skip(j + 2));
    } else {
        assert(after.0 =~= v.take(j) + seq!["+"@, "-"@ + v[j + 1]] + v.skip(j + 2));
    }
}

} // verus!
