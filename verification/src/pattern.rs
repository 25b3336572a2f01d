//! Regular-expression matching and case folding, provided by the `regex` crate and by std.

use vstd::prelude::*;

verus! {

/// What matching `haystack` against `pattern` with the `regex` crate gives: `None` when
/// the pattern does not compile, else whether there is a match anywhere in the haystack.
pub uninterp spec fn regex_outcome(pattern: Seq<char>, haystack: Seq<char>) -> Option<bool>;


/// The pattern of `log` with an optional leading `-`.
pub open spec fn log_pattern() -> Seq<char> {
    "^-?log$"@
}

/// The pattern of a trigonometric function name with an optional leading `-` and an
/// optional `h`.
pub open spec fn trig_pattern() -> Seq<char> {
    "^-?((cos|sin|tan|sec|cosec|cot)h?)$"@
}

/// The pattern of any function name: a trigonometric one, `log`, or `log_` with a base
/// and `_`; with an optional leading `-` and an optional `h`.
pub open spec fn function_pattern() -> Seq<char> {
    "^-?(cos|sin|tan|sec|cosec|cot|log(_[0-9]+_)?)h?$"@
}

/// The pattern of a number with an imaginary part.
pub open spec fn complex_token_pattern() -> Seq<char> {
    "([0-9])*(\\+|\\-)?([0-9])+i"@
}

/// The pattern by which a pair of numbers is computed as complex numbers.
pub open spec fn complex_pair_pattern() -> Seq<char> {
    "([0-9]*\\.?[0-9]*)(\\+|\\-)?([0-9]+\\.?[0-9]*i)"@
}

/// The pattern that tells a term in `x` from a constant term.
pub open spec fn x_term_pattern() -> Seq<char> {
    "((0-9)*)?x((0-9)*)?"@
}

/// The pattern of a power of `x` above one.
pub open spec fn higher_power_pattern() -> Seq<char> {
    "x[2-9]+"@
}

/// The text without one leading `-`.
pub open spec fn without_minus(t: Seq<char>) -> Seq<char> {
    if t.len() > 0 && t[0] == '-' {
        t.skip(1)
    } else {
        t
    }
}

/// The text is `cos`, `sin`, `tan`, `sec`, `cosec` or `cot`.
pub open spec fn trig_base(t: Seq<char>) -> bool {
    t == "cos"@ || t == "sin"@ || t == "tan"@ || t == "sec"@ || t == "cosec"@ || t == "cot"@
}

/// The text is a trigonometric name or `log`, or `log_`, decimal digits and `_`.
pub open spec fn function_base(t: Seq<char>) -> bool {
    ||| trig_base(t)
    ||| t == "log"@
    ||| (t.len() >= 6 && t.take(4) == "log_"@ && t.last() == '_' && forall|k: int|
        4 <= k < t.len() - 1 ==> '0' <= #[trigger] t[k] <= '9')
}

/// The text is `base` or `base` followed by `h`, for a `base` that `p` accepts.
pub open spec fn with_optional_h(t: Seq<char>, p: spec_fn(Seq<char>) -> bool) -> bool {
    p(t) || (t.len() > 0 && t.last() == 'h' && p(t.drop_last()))
}

/// A decimal digit.
pub open spec fn digit(c: char) -> bool {
    '0' <= c <= '9'
}

/// What matching the fixed patterns of this library gives, read off the regex syntax:
/// `^` and `$` anchor at the ends of the text, `?` makes one item optional, `*` and `+`
/// repeat one, `[0-9]` and `[2-9]` are ranges of characters, and `\.`, `\+`, `\-` are the
/// characters themselves. `None` for any other pattern.
pub open spec fn known_outcome(pattern: Seq<char>, t: Seq<char>) -> Option<bool> {
    if pattern == log_pattern() {
        Some(without_minus(t) == "log"@)
    } else if pattern == trig_pattern() {
        Some(with_optional_h(without_minus(t), |b: Seq<char>| trig_base(b)))
    } else if pattern == function_pattern() {
        Some(with_optional_h(without_minus(t), |b: Seq<char>| function_base(b)))
    } else if pattern == complex_token_pattern() {
        Some(exists|j: int| 1 <= j < t.len() && t[j] == 'i' && digit(#[trigger] t[j - 1]))
    } else if pattern == complex_pair_pattern() {
        Some(exists|j: int| 1 <= j < t.len() && t[j] == 'i' && (digit(#[trigger] t[j - 1]) || (j >= 2 && t[j - 1] == '.' && digit(t[j - 2]))))
    } else if pattern == x_term_pattern() {
        Some(t.contains('x'))
    } else if pattern == higher_power_pattern() {
        Some(exists|j: int| 0 <= j < t.len() - 1 && t[j] == 'x' && '2' <= #[trigger] t[j + 1] <= '9')
    } else {
        None
    }
}

/// Compiles `pattern` with `regex::Regex::new` and, when that succeeds, asks
/// `regex::Regex::is_match` whether it matches anywhere in `haystack`. The contract names
/// the outcome, and for the fixed patterns of this library states which texts they match
/// (see `known_outcome`); for other patterns that is left to the `regex` crate.
#[verifier::external_body]
pub(crate) fn regex_matches(pattern: &str, haystack: &str) -> (r: Option<bool>)
    ensures
        r == regex_outcome(pattern@, haystack@),
        known_outcome(pattern@, haystack@) is Some ==> r == known_outcome(pattern@, haystack@),
{
    match regex::Regex::new(pattern) {
        Ok(re) => Some(re.is_match(haystack)),
        Err(_) => None,
    }
}

/// What `str::to_lowercase` gives: the Unicode lowercase form of the text.
pub uninterp spec fn lowercase(s: Seq<char>) -> Seq<char>;

/// The ASCII lowercase form of a character: `A` to `Z` become `a` to `z`.
pub open spec fn ascii_lower(c: char) -> char {
    if 'A' <= c <= 'Z' {
        ((c as u32) + 32) as char
    } else {
        c
    }
}

/// `str::to_lowercase`. The contract names the result, and states of a text of ASCII
/// characters only that its letters `A` to `Z` become `a` to `z` and the rest stay, as for
/// such text the Unicode lowercase mapping does; the mapping of other characters is std's
/// and is not stated.
#[verifier::external_body]
pub(crate) fn to_lowercase(s: &str) -> (r: String)
    ensures
        r@ == lowercase(s@),
        (forall|i: int| 0 <= i < s@.len() ==> (#[trigger] s@[i] as u32) < 128) ==> r@ == s@.map_values(
            |c: char| ascii_lower(c),
        ),
{
    s.to_lowercase()
}

/// The fixed patterns are told apart, so each has its outcome in `known_outcome`.
pub proof fn lemma_known_outcomes(t: Seq<char>)
    ensures
        known_outcome(log_pattern(), t) == Some(without_minus(t) == "log"@),
        known_outcome(trig_pattern(), t) == Some(with_optional_h(without_minus(t), |b: Seq<char>| trig_base(b))),
        known_outcome(function_pattern(), t) == Some(with_optional_h(without_minus(t), |b: Seq<char>| function_base(b))),
        known_outcome(complex_token_pattern(), t) is Some,
        known_outcome(complex_pair_pattern(), t) is Some,
        known_outcome(x_term_pattern(), t) == Some(t.contains('x')),
        known_outcome(higher_power_pattern(), t) is Some,
{
    reveal_strlit("^-?log$");
    reveal_strlit("^-?((cos|sin|tan|sec|cosec|cot)h?)$");
    reveal_strlit("^-?(cos|sin|tan|sec|cosec|cot|log(_[0-9]+_)?)h?$");
    reveal_strlit("([0-9])*(\\+|\\-)?([0-9])+i");
    reveal_strlit("([0-9]*\\.?[0-9]*)(\\+|\\-)?([0-9]+\\.?[0-9]*i)");
    reveal_strlit("((0-9)*)?x((0-9)*)?");
    reveal_strlit("x[2-9]+");
    assert(log_pattern()[3] == 'l');
    assert(trig_pattern()[3] == '(' && trig_pattern()[4] == '(');
    assert(function_pattern()[3] == '(' && function_pattern()[4] == 'c');
    assert(complex_token_pattern()[1] == '[' && complex_token_pattern()[6] == ')');
    assert(complex_pair_pattern()[1] == '[' && complex_pair_pattern()[6] == '*');
    assert(x_term_pattern()[0] == '(' && x_term_pattern()[1] == '(');
    assert(higher_power_pattern()[0] == 'x');
    assert(log_pattern()[0] == '^' && trig_pattern()[0] == '^' && function_pattern()[0] == '^');
}

} // verus!
