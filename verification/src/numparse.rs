//! The textual forms of numbers that `str::parse` accepts for `f64` and `i32`.

use vstd::prelude::*;
use crate::text::to_chars;

verus! {

/// The character is a decimal digit.
pub open spec fn is_digit(c: char) -> bool {
    '0' <= c && c <= '9'
}

/// Every character is a decimal digit.
pub open spec fn all_digits(s: Seq<char>) -> bool {
    forall|i: int| 0 <= i < s.len() ==> is_digit(#[trigger] s[i])
}

/// `c` is the lowercase ASCII letter `t` or its uppercase form.
pub open spec fn ci(c: char, t: char) -> bool {
    c == t || c as int + 32 == t as int
}

/// `s` spells the lowercase word `w`, ignoring ASCII case.
pub open spec fn word_ci(s: Seq<char>, w: Seq<char>) -> bool {
    s.len() == w.len() && forall|i: int| 0 <= i < s.len() ==> ci(#[trigger] s[i], w[i])
}

/// The character is `+` or `-`.
pub open spec fn is_sign(c: char) -> bool {
    c == '+' || c == '-'
}

/// `s` without one leading sign.
pub open spec fn unsigned_part(s: Seq<char>) -> Seq<char> {
    if s.len() > 0 && is_sign(s[0]) {
        s.skip(1)
    } else {
        s
    }
}

/// `Digit+ | Digit+ '.' Digit* | Digit* '.' Digit+`
pub open spec fn mantissa_ok(m: Seq<char>) -> bool {
    ||| m.len() > 0 && all_digits(m)
    ||| m.len() >= 2 && exists|d: int|
        0 <= d < m.len() && #[trigger] m[d] == '.' && all_digits(m.take(d)) && all_digits(m.skip(d + 1))
}

/// `Sign? Digit+`
pub open spec fn exponent_ok(e: Seq<char>) -> bool {
    unsigned_part(e).len() > 0 && all_digits(unsigned_part(e))
}

/// A mantissa, optionally followed by `e` (either case) and an exponent.
pub open spec fn number_ok(s: Seq<char>) -> bool {
    ||| mantissa_ok(s)
    ||| exists|k: int|
        0 <= k < s.len() && ci(#[trigger] s[k], 'e') && mantissa_ok(s.take(k)) && exponent_ok(s.skip(k + 1))
}

/// The grammar of `f64::from_str`: `Sign? ('inf' | 'infinity' | 'nan' | Number)`,
/// letters in either case; no surrounding whitespace.
pub open spec fn float_syntax(s: Seq<char>) -> bool {
    let b = unsigned_part(s);
    ||| word_ci(b, seq!['i', 'n', 'f'])
    ||| word_ci(b, seq!['i', 'n', 'f', 'i', 'n', 'i', 't', 'y'])
    ||| word_ci(b, seq!['n', 'a', 'n'])
    ||| number_ok(b)
}

fn is_digit_char(c: char) -> (r: bool)
    ensures
        r == is_digit(c),
{
    '0' <= c && c <= '9'
}

fn ci_char(c: char, t: char) -> (r: bool)
    requires
        'a' <= t <= 'z',
    ensures
        r == ci(c, t),
{
    let ct = t as u32;
    c == t || c as u32 + 32 == ct
}

/// Whether `s[from..to]` holds only digits.
fn digits_between(s: &Vec<char>, from: usize, to: usize) -> (r: bool)
    requires
        from <= to <= s.len(),
    ensures
        r == all_digits(s@.subrange(from as int, to as int)),
{
    let mut i = from;
    while i < to
        invariant
            from <= i <= to <= s.len(),
            all_digits(s@.subrange(from as int, i as int)),
        decreases to - i,
    {
        if !is_digit_char(s[i]) {
            assert(s@.subrange(from as int, to as int)[i - from] == s@[i as int]);
            return false;
        }
        assert forall|j: int| 0 <= j < i + 1 - from implies is_digit(#[trigger] s@.subrange(from as int, i + 1)[j]) by {
            if j < i - from {
                assert(s@.subrange(from as int, i + 1)[j] == s@.subrange(from as int, i as int)[j]);
            }
        }
        i = i + 1;
    }
    true
}

fn word_ci_between(s: &Vec<char>, from: usize, w: &[char]) -> (r: bool)
    requires
        from <= s.len(),
        forall|i: int| 0 <= i < w@.len() ==> 'a' <= #[trigger] w@[i] <= 'z',
    ensures
        r == word_ci(s@.skip(from as int), w@),
{
    if s.len() - from != w.len() {
        return false;
    }
    let mut i: usize = 0;
    while i < w.len()
        invariant
            from + w.len() == s.len(),
            i <= w.len(),
            forall|j: int| 0 <= j < w@.len() ==> 'a' <= #[trigger] w@[j] <= 'z',
            forall|j: int| 0 <= j < i ==> ci(#[trigger] s@.skip(from as int)[j], w@[j]),
        decreases w.len() - i,
    {
        if !ci_char(s[from + i], w[i]) {
            assert(s@.skip(from as int)[i as int] == s@[from + i]);
            return false;
        }
        assert(s@.skip(from as int)[i as int] == s@[from + i]);
        i = i + 1;
    }
    true
}

/// Whether `s[from..to]` is a mantissa.
fn mantissa_between(s: &Vec<char>, from: usize, to: usize) -> (r: bool)
    requires
        from <= to <= s.len(),
    ensures
        r == mantissa_ok(s@.subrange(from as int, to as int)),
{
    let ghost m = s@.subrange(from as int, to as int);
    let mut d = from;
    while d < to && s[d] != '.'
        invariant
            from <= d <= to <= s.len(),
            m == s@.subrange(from as int, to as int),
            forall|j: int| from <= j < d ==> s@[j] != '.',
        decreases to - d,
    {
        d = d + 1;
    }
    if d == to {
        let r = to > from && digits_between(s, from, to);
        proof {
            if !r && m.len() >= 2 {
                assert forall|e: int| 0 <= e < m.len() implies #[trigger] m[e] != '.' by {
                    assert(m[e] == s@[from + e]);
                }
            }
        }
        return r;
    }
    let before = digits_between(s, from, d);
    let after = digits_between(s, d + 1, to);
    let ghost dd = d - from;
    proof {
        assert(m[dd] == '.');
        assert(m.take(dd) =~= s@.subrange(from as int, d as int));
        assert(m.skip(dd + 1) =~= s@.subrange(d + 1, to as int));
        assert(!all_digits(m)) by {
            assert(!is_digit(m[dd]));
        }
        assert forall|e: int| 0 <= e < m.len() && #[trigger] m[e] == '.' && all_digits(m.take(e))
            implies e == dd by {
            if e > dd {
                assert(m.take(e)[dd] == '.');
            }
            if e < dd {
                assert(m[e] == s@[from + e]);
            }
        }
    }
    to - from >= 2 && before && after
}

/// Whether `s[from..]` is an exponent: an optional sign, then digits.
fn exponent_from(s: &Vec<char>, from: usize) -> (r: bool)
    requires
        from <= s.len(),
    ensures
        r == exponent_ok(s@.skip(from as int)),
{
    let ghost e = s@.skip(from as int);
    let start = if from < s.len() && (s[from] == '+' || s[from] == '-') {
        from + 1
    } else {
        from
    };
    proof {
        if from < s.len() {
            assert(e[0] == s@[from as int]);
        }
        assert(unsigned_part(e) =~= s@.subrange(start as int, s.len() as int));
    }
    start < s.len() && digits_between(s, start, s.len())
}

/// Whether the text has the form that `f64::from_str` accepts.
pub fn is_float_text(s: &str) -> (r: bool)
    ensures
        r == float_syntax(s@),
{
    let v = to_chars(s);
    let start: usize = if v.len() > 0 && (v[0] == '+' || v[0] == '-') {
        1
    } else {
        0
    };
    let ghost b = unsigned_part(s@);
    assert(b =~= v@.skip(start as int));
    let inf = ['i', 'n', 'f'];
    let infinity = ['i', 'n', 'f', 'i', 'n', 'i', 't', 'y'];
    let nan = ['n', 'a', 'n'];
    assert(inf@ =~= seq!['i', 'n', 'f']);
    assert(infinity@ =~= seq!['i', 'n', 'f', 'i', 'n', 'i', 't', 'y']);
    assert(nan@ =~= seq!['n', 'a', 'n']);
    if word_ci_between(&v, start, &inf) || word_ci_between(&v, start, &infinity)
        || word_ci_between(&v, start, &nan) {
        return true;
    }
    if mantissa_between(&v, start, v.len()) {
        assert(v@.subrange(start as int, v.len() as int) =~= b);
        return true;
    }
    assert(v@.subrange(start as int, v.len() as int) =~= b);
    let mut k = start;
    while k < v.len() && !ci_char(v[k], 'e')
        invariant
            start <= k <= v.len(),
            forall|j: int| start <= j < k ==> !ci(v@[j], 'e'),
        decreases v.len() - k,
    {
        k = k + 1;
    }
    if k == v.len() {
        assert forall|j: int| 0 <= j < b.len() implies !ci(#[trigger] b[j], 'e') by {
            assert(b[j] == v@[start + j]);
        }
        return false;
    }
    let r = mantissa_between(&v, start, k) && exponent_from(&v, k + 1);
    proof {
        let kk = k - start;
        assert(b[kk] == v@[k as int]);
        assert(b.take(kk) =~= v@.subrange(start as int, k as int));
        assert(b.skip(kk + 1) =~= v@.skip(k + 1));
        assert forall|j: int| 0 <= j < b.len() && ci(#[trigger] b[j], 'e') && mantissa_ok(b.take(j))
            implies j == kk by {
            if j < kk {
                assert(b[j] == v@[start + j]);
            }
            if j > kk {
                let t = b.take(j);
                assert(t[kk] == b[kk]);
                assert(!is_digit(t[kk]));
                assert(t[kk] != '.');
                assert(!all_digits(t));
                assert forall|d: int| 0 <= d < t.len() && #[trigger] t[d] == '.' implies !all_digits(t.take(d)) || !all_digits(t.skip(d + 1)) by {
                    if d < kk {
                        assert(t.skip(d + 1)[kk - d - 1] == t[kk]);
                    } else {
                        assert(t.take(d)[kk] == t[kk]);
                    }
                }
            }
        }
    }
    r
}

/// The value of a non-empty run of decimal digits.
pub open spec fn digits_value(s: Seq<char>) -> int
    decreases s.len(),
{
    if s.len() == 0 {
        0
    } else {
        digits_value(s.drop_last()) * 10 + (s.last() as int - '0' as int)
    }
}

/// The integer written as an optional sign followed by at least one digit.
pub open spec fn int_text_value(s: Seq<char>) -> Option<int> {
    let d = unsigned_part(s);
    if d.len() > 0 && all_digits(d) {
        if s[0] == '-' {
            Some(-digits_value(d))
        } else {
            Some(digits_value(d))
        }
    } else {
        None
    }
}

/// What `i32::from_str` returns: the value when the text is an integer in range.
pub open spec fn parse_i32_spec(s: Seq<char>) -> Option<i32> {
    match int_text_value(s) {
        Some(v) => if i32::MIN <= v <= i32::MAX {
            Some(v as i32)
        } else {
            None
        },
        None => None,
    }
}

proof fn lemma_digits_value_grows(s: Seq<char>, k: int)
    requires
        0 <= k <= s.len(),
        all_digits(s),
    ensures
        0 <= digits_value(s.take(k)) <= digits_value(s),
    decreases s.len() - k,
{
    if k < s.len() {
        lemma_digits_value_grows(s, k + 1);
        assert(s.take(k + 1).drop_last() =~= s.take(k));
        assert(is_digit(s[k]));
    } else {
        assert(s.take(k) =~= s);
        lemma_digits_value_nonneg(s);
    }
}

proof fn lemma_digits_value_nonneg(s: Seq<char>)
    requires
        all_digits(s),
    ensures
        digits_value(s) >= 0,
    decreases s.len(),
{
    if s.len() > 0 {
        assert(is_digit(s[s.len() - 1]));
        lemma_digits_value_nonneg(s.drop_last());
    }
}

/// Parses a decimal `i32` as `str::parse::<i32>` does: an optional `+` or `-`, then digits,
/// and the value in range; `None` otherwise.
pub fn parse_i32(s: &str) -> (r: Option<i32>)
    ensures
        r == parse_i32_spec(s@),
{
    let v = to_chars(s);
    let start: usize = if v.len() > 0 && (v[0] == '+' || v[0] == '-') {
        1
    } else {
        0
    };
    let ghost d = unsigned_part(s@);
    assert(d =~= v@.skip(start as int));
    if start == v.len() || !digits_between(&v, start, v.len()) {
        assert(v@.subrange(start as int, v.len() as int) =~= d);
        return None;
    }
    assert(v@.subrange(start as int, v.len() as int) =~= d);
    let mut acc: i64 = 0;
    let mut i = start;
    while i < v.len()
        invariant
            start <= i <= v.len(),
            d == v@.skip(start as int),
            d == unsigned_part(s@),
            v@ == s@,
            all_digits(d),
            acc == digits_value(d.take(i - start)),
            0 <= acc <= 2147483648,
        decreases v.len() - i,
    {
        let c = v[i];
        assert(d[i - start] == c);
        let digit = (c as u32 - '0' as u32) as i64;
        assert(d.take(i - start + 1).drop_last() =~= d.take(i - start));
        assert(digit == c as int - '0' as int);
        assert(d.take(i - start + 1).last() == c);
        acc = acc * 10 + digit;
        assert(acc == digits_value(d.take(i - start + 1)));
        if acc > 2147483648 {
            proof {
                lemma_digits_value_grows(d, i - start + 1);
                assert(digits_value(d) > 2147483648);
                assert(d.len() > 0);
                let iv = int_text_value(s@);
                assert(iv is Some);
                assert(iv->0 > i32::MAX || iv->0 < i32::MIN);
            }
            return None;
        }
        i = i + 1;
    }
    assert(d.take(i - start) =~= d);
    if v[0] == '-' {
        Some((-acc) as i32)
    } else if acc > 2147483647 {
        None
    } else {
        Some(acc as i32)
    }
}

/// The digits of an unsigned integer text: the text without one leading `+`.
pub open spec fn unsigned_digits(s: Seq<char>) -> Seq<char> {
    if s.len() > 0 && s[0] == '+' {
        s.skip(1)
    } else {
        s
    }
}

/// What `usize::from_str` returns: the value when the text is an optional `+` followed by
/// at least one digit, and the value fits in a `usize`.
pub open spec fn parse_usize_spec(s: Seq<char>) -> Option<usize> {
    let d = unsigned_digits(s);
    if d.len() > 0 && all_digits(d) && digits_value(d) <= usize::MAX {
        Some(digits_value(d) as usize)
    } else {
        None
    }
}

/// Parses a decimal `usize` as `str::parse::<usize>` does: an optional `+`, then digits,
/// and the value in range; `None` otherwise.
pub fn parse_usize(s: &str) -> (r: Option<usize>)
    ensures
        r == parse_usize_spec(s@),
{
    let v = to_chars(s);
    let start: usize = if v.len() > 0 && v[0] == '+' {
        1
    } else {
        0
    };
    let ghost d = unsigned_digits(s@);
    assert(d =~= v@.skip(start as int));
    assert(v@.subrange(start as int, v.len() as int) =~= d);
    if start == v.len() || !digits_between(&v, start, v.len()) {
        return None;
    }
    let mut acc: usize = 0;
    let mut i = start;
    while i < v.len()
        invariant
            start <= i <= v.len(),
            d == v@.skip(start as int),
            d == unsigned_digits(s@),
            v@ == s@,
            all_digits(d),
            acc == digits_value(d.take(i - start)),
        decreases v.len() - i,
    {
        let c = v[i];
        assert(d[i - start] == c);
        let digit = (c as u32 - '0' as u32) as usize;
        assert(d.take(i - start + 1).drop_last() =~= d.take(i - start));
        assert(digit == c as int - '0' as int);
        assert(d.take(i - start + 1).last() == c);
        assert(digits_value(d.take(i - start + 1)) == acc * 10 + digit);
        let next = match acc.checked_mul(10) {
            Some(t) => t.checked_add(digit),
            None => None,
        };
        match next {
            Some(n) => {
                acc = n;
            },
            None => {
                proof {
                    lemma_digits_value_grows(d, i - start + 1);
                }
                return None;
            },
        }
        i = i + 1;
    }
    assert(d.take(i - start) =~= d);
    Some(acc)
}

} // verus!
