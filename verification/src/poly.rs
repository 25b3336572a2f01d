//! Polynomials in `x` written as text: reading a sum into its terms, and writing terms
//! back. The coefficients themselves are numbers the caller computes with.

use vstd::prelude::*;
use crate::brackets::{unequal_brac_checked, unequal_brac_spec};
use crate::format::{format_inp, owned, spaced_input, squeeze_spaces};
use crate::numparse::{parse_i32, parse_i32_spec, parse_usize, parse_usize_spec};
use crate::pattern::{known_outcome, regex_matches, x_term_pattern};
use crate::steps::{nat_text, nat_to_text};
use crate::text::{append_chars, concat, from_chars, replace_all, to_chars};
use crate::text::replace_spec;
use crate::tokens::{create_vecs_from_str, drop_empty, split_pieces, split_spec};

verus! {

/// One term of a sum. A term in `x` keeps the text of its coefficient (before the `x`)
/// and of its power (after it); a constant term keeps its whole text as `coef`, and an
/// empty `power`.
pub struct PolyTerm {
    pub in_x: bool,
    pub coef: String,
    pub power: String,
}

impl View for PolyTerm {
    type V = (bool, Seq<char>, Seq<char>);

    open spec fn view(&self) -> (bool, Seq<char>, Seq<char>) {
        (self.in_x, self.coef@, self.power@)
    }
}

/// The pieces of a term in `x`: the term with ` x ` for every `x`, split at spaces.
pub open spec fn x_pieces(t: Seq<char>) -> Seq<Seq<char>> {
    split_spec(replace_spec(t, "x"@, " x "@), " "@)
}

/// How a term is read: a term that holds an `x` gives the first and third of its pieces
/// (`None` if it had fewer than three); any other term is a constant.
pub open spec fn poly_term_spec(t: Seq<char>) -> Option<(bool, Seq<char>, Seq<char>)> {
    if t.contains('x') {
        let p = x_pieces(t);
        if p.len() >= 3 {
            Some((true, p[0], p[2]))
        } else {
            None
        }
    } else {
        Some((false, t, Seq::<char>::empty()))
    }
}

/// Reads one term of a sum (see `poly_term_spec`).
pub fn poly_term(el: &str) -> (r: Option<PolyTerm>)
    ensures
        r is Some <==> poly_term_spec(el@) is Some,
        r matches Some(t) ==> poly_term_spec(el@) == Some(t@),
{
    let m = regex_matches("((0-9)*)?x((0-9)*)?", el);
    proof {
        crate::pattern::lemma_known_outcomes(el@);
    }
    match m {
        None => None,
        Some(false) => {
            let power = owned("");
            proof {
                reveal_strlit("");
            }
            Some(PolyTerm { in_x: false, coef: owned(el), power })
        },
        Some(true) => {
            let spaced = replace_all(el, "x", " x ");
            proof {
                reveal_strlit(" ");
            }
            let pieces = split_pieces(spaced.as_str(), " ");
            assert(pieces.deep_view().len() == pieces.len());
            if pieces.len() < 3 {
                None
            } else {
                assert(pieces[0]@ == pieces.deep_view()[0]);
                assert(pieces[2]@ == pieces.deep_view()[2]);
                Some(PolyTerm { in_x: true, coef: pieces[0].clone(), power: pieces[2].clone() })
            }
        },
    }
}

/// The power of a term as a signed number: its power text read as an `i32`, else `1`.
pub open spec fn rank_spec(power: Seq<char>) -> i32 {
    match parse_i32_spec(power) {
        Some(v) => v,
        None => 1,
    }
}

/// The power of a term as a position among the coefficients: its power text read as a
/// `usize`, else `1`.
pub open spec fn slot_spec(power: Seq<char>) -> usize {
    match parse_usize_spec(power) {
        Some(v) => v,
        None => 1,
    }
}

impl PolyTerm {
    /// The power as a signed number (see `rank_spec`).
    pub fn rank(&self) -> (r: i32)
        ensures
            r == rank_spec(self.power@),
    {
        match parse_i32(self.power.as_str()) {
            Some(v) => v,
            None => 1,
        }
    }

    /// The power as a position among the coefficients (see `slot_spec`).
    pub fn slot(&self) -> (r: usize)
        ensures
            r == slot_spec(self.power@),
    {
        match parse_usize(self.power.as_str()) {
            Some(v) => v,
            None => 1,
        }
    }
}

/// The terms read from the pieces, in order; `None` when one of them cannot be read.
pub open spec fn terms_spec(ps: Seq<Seq<char>>) -> Option<Seq<(bool, Seq<char>, Seq<char>)>>
    decreases ps.len(),
{
    if ps.len() == 0 {
        Some(Seq::empty())
    } else {
        match terms_spec(ps.drop_last()) {
            None => None,
            Some(acc) => match poly_term_spec(ps.last()) {
                None => None,
                Some(t) => Some(acc.push(t)),
            },
        }
    }
}

/// The views of a list of terms.
pub open spec fn terms_view(v: Seq<PolyTerm>) -> Seq<(bool, Seq<char>, Seq<char>)> {
    v.map_values(|t: PolyTerm| t@)
}

/// Reads every piece of `s` between `+` signs as a term (see `terms_spec`).
pub fn poly_terms(s: &str) -> (r: Option<Vec<PolyTerm>>)
    ensures
        r is Some <==> terms_spec(split_spec(s@, "+"@)) is Some,
        r matches Some(v) ==> terms_spec(split_spec(s@, "+"@)) == Some(terms_view(v@)),
{
    proof {
        reveal_strlit("+");
    }
    let pieces = split_pieces(s, "+");
    let ghost ps = pieces.deep_view();
    let mut out: Vec<PolyTerm> = Vec::new();
    let mut i: usize = 0;
    while i < pieces.len()
        invariant
            i <= pieces.len(),
            ps == pieces.deep_view(),
            ps == split_spec(s@, "+"@),
            terms_spec(ps.take(i as int)) == Some(terms_view(out@)),
        decreases pieces.len() - i,
    {
        assert(ps.take(i + 1).drop_last() =~= ps.take(i as int));
        assert(pieces[i as int]@ == ps[i as int]);
        match poly_term(pieces[i].as_str()) {
            None => {
                proof {
                    lemma_terms_none_extends(ps, i as int + 1);
                    assert(ps.take(ps.len() as int) =~= ps);
                }
                return None;
            },
            Some(t) => {
                out.push(t);
                assert(terms_view(out@) =~= terms_view(out@.drop_last()).push(t@));
                assert(out@.drop_last() == out@.take(out@.len() - 1));
            },
        }
        i = i + 1;
    }
    assert(ps.take(i as int) =~= ps);
    Some(out)
}

/// Once a prefix of the pieces cannot be read, neither can the whole list.
proof fn lemma_terms_none_extends(ps: Seq<Seq<char>>, n: int)
    requires
        0 <= n <= ps.len(),
        terms_spec(ps.take(n)) is None,
    ensures
        terms_spec(ps) is None,
    decreases ps.len() - n,
{
    if n < ps.len() {
        assert(ps.take(n + 1).drop_last() =~= ps.take(n));
        lemma_terms_none_extends(ps, n + 1);
    } else {
        assert(ps.take(n) =~= ps);
    }
}

/// The number of brackets one completion pass adds to a piece once it is spaced into
/// tokens as input is.
pub open spec fn piece_missed(el: Seq<char>) -> int {
    unequal_brac_spec(drop_empty(split_spec(squeeze_spaces(spaced_input(el)), " "@)), 0).1
}

/// The terms of a sum read from its pieces, leaving out every piece to which a
/// completion pass adds brackets; `None` when a count passes `i32::MAX` or a kept piece
/// cannot be read.
pub open spec fn sum_terms_spec(ps: Seq<Seq<char>>) -> Option<Seq<(bool, Seq<char>, Seq<char>)>>
    decreases ps.len(),
{
    if ps.len() == 0 {
        Some(Seq::empty())
    } else {
        match sum_terms_spec(ps.drop_last()) {
            None => None,
            Some(acc) => {
                let m = piece_missed(ps.last());
                if m > i32::MAX {
                    None
                } else if m != 0 {
                    Some(acc)
                } else {
                    match poly_term_spec(ps.last()) {
                        None => None,
                        Some(t) => Some(acc.push(t)),
                    }
                }
            },
        }
    }
}

/// Once a prefix of the pieces fails, the whole list does.
proof fn lemma_sum_terms_none_extends(ps: Seq<Seq<char>>, n: int)
    requires
        0 <= n <= ps.len(),
        sum_terms_spec(ps.take(n)) is None,
    ensures
        sum_terms_spec(ps) is None,
    decreases ps.len() - n,
{
    if n < ps.len() {
        assert(ps.take(n + 1).drop_last() =~= ps.take(n));
        lemma_sum_terms_none_extends(ps, n + 1);
    } else {
        assert(ps.take(n) =~= ps);
    }
}

/// The terms of the sum `first + sec`: the pieces of `first`, `+` and `sec` between `+`
/// signs, without those whose brackets do not match (see `sum_terms_spec`).
pub fn sum_terms(first: &str, sec: &str) -> (r: Option<Vec<PolyTerm>>)
    ensures
        r is Some <==> sum_terms_spec(split_spec(first@ + "+"@ + sec@, "+"@)) is Some,
        r matches Some(v) ==> sum_terms_spec(split_spec(first@ + "+"@ + sec@, "+"@)) == Some(terms_view(v@)),
{
    proof {
        reveal_strlit("+");
        reveal_strlit(" ");
    }
    let head = concat(first, "+");
    let sum = concat(head.as_str(), sec);
    let pieces = split_pieces(sum.as_str(), "+");
    let ghost ps = pieces.deep_view();
    let mut out: Vec<PolyTerm> = Vec::new();
    let mut i: usize = 0;
    while i < pieces.len()
        invariant
            i <= pieces.len(),
            ps == pieces.deep_view(),
            ps == split_spec(first@ + "+"@ + sec@, "+"@),
            sum_terms_spec(ps.take(i as int)) == Some(terms_view(out@)),
        decreases pieces.len() - i,
    {
        assert(ps.take(i + 1).drop_last() =~= ps.take(i as int));
        assert(pieces[i as int]@ == ps[i as int]);
        let spaced = format_inp(owned(pieces[i].as_str()));
        let toks = create_vecs_from_str(spaced, " ");
        match unequal_brac_checked(toks, 0) {
            None => {
                proof {
                    lemma_sum_terms_none_extends(ps, i as int + 1);
                }
                return None;
            },
            Some(pass) => {
                if pass.1 == 0 {
                    match poly_term(pieces[i].as_str()) {
                        None => {
                            proof {
                                lemma_sum_terms_none_extends(ps, i as int + 1);
                            }
                            return None;
                        },
                        Some(t) => {
                            out.push(t);
                            assert(terms_view(out@) =~= terms_view(out@.drop_last()).push(t@));
                        },
                    }
                }
            },
        }
        i = i + 1;
    }
    assert(ps.take(i as int) =~= ps);
    Some(out)
}

/// How a term is written: a constant term (power `0`) is its coefficient; any other is
/// the coefficient, left out when it is one, then `x`, then the power unless it is one.
pub open spec fn monomial_spec(coef: Seq<char>, coef_is_one: bool, power: nat) -> Seq<char> {
    if power == 0 {
        coef
    } else {
        (if coef_is_one { Seq::<char>::empty() } else { coef }) + "x"@ + (if power == 1 {
            Seq::<char>::empty()
        } else {
            nat_text(power)
        })
    }
}

/// Writes one term (see `monomial_spec`); `coef` is the written coefficient.
pub fn monomial_text(coef: &str, coef_is_one: bool, power: usize) -> (r: String)
    ensures
        r@ == monomial_spec(coef@, coef_is_one, power as nat),
{
    if power == 0 {
        return owned(coef);
    }
    proof {
        reveal_strlit("");
        reveal_strlit("x");
    }
    let lead = if coef_is_one { owned("") } else { owned(coef) };
    let with_x = concat(lead.as_str(), "x");
    if power == 1 {
        with_x
    } else {
        let p = nat_to_text(power);
        concat(with_x.as_str(), p.as_str())
    }
}

/// The pieces joined with `+` between them.
pub open spec fn join_plus(ps: Seq<Seq<char>>) -> Seq<char>
    decreases ps.len(),
{
    if ps.len() == 0 {
        Seq::empty()
    } else if ps.len() == 1 {
        ps[0]
    } else {
        join_plus(ps.drop_last()) + "+"@ + ps.last()
    }
}

/// The pieces, each followed by `+`.
pub open spec fn with_plus(ps: Seq<Seq<char>>) -> Seq<char>
    decreases ps.len(),
{
    if ps.len() == 0 {
        Seq::empty()
    } else {
        with_plus(ps.drop_last()) + ps.last() + "+"@
    }
}

/// The pieces joined with `+` between them, or each followed by `+` when `trailing`.
pub fn join_parts(parts: &Vec<String>, trailing: bool) -> (r: String)
    ensures
        r@ == (if trailing { with_plus(parts.deep_view()) } else { join_plus(parts.deep_view()) }),
{
    proof {
        reveal_strlit("+");
    }
    let ghost ps = parts.deep_view();
    let plus = to_chars("+");
    let mut out: Vec<char> = Vec::new();
    let mut i: usize = 0;
    while i < parts.len()
        invariant
            i <= parts.len(),
            ps == parts.deep_view(),
            plus@ == "+"@,
            out@ == (if trailing { with_plus(ps.take(i as int)) } else { join_plus(ps.take(i as int)) }),
        decreases parts.len() - i,
    {
        assert(ps.take(i + 1).drop_last() =~= ps.take(i as int));
        assert(parts[i as int]@ == ps[i as int]);
        let piece = to_chars(parts[i].as_str());
        if trailing {
            append_chars(&mut out, &piece);
            append_chars(&mut out, &plus);
        } else {
            if i > 0 {
                append_chars(&mut out, &plus);
            } else {
                assert(ps.take(0) =~= Seq::<Seq<char>>::empty());
            }
            append_chars(&mut out, &piece);
        }
        i = i + 1;
    }
    assert(ps.take(i as int) =~= ps);
    from_chars(out.as_slice())
}

/// How a polynomial is written from its written terms: `0` when there are none, else the
/// terms joined with `+`.
pub open spec fn poly_text_spec(terms: Seq<Seq<char>>) -> Seq<char> {
    if terms.len() == 0 {
        "0"@
    } else {
        join_plus(terms)
    }
}

/// Writes a polynomial from its written terms (see `poly_text_spec`).
pub fn poly_text(terms: &Vec<String>) -> (r: String)
    ensures
        r@ == poly_text_spec(terms.deep_view()),
{
    if terms.len() == 0 {
        owned("0")
    } else {
        join_parts(terms, false)
    }
}

/// How a quotient is written from the written terms of the quotient and, when something
/// remains, of the remainder: the quotient's terms each followed by `+`, then the
/// remainder in brackets over the divisor; with nothing remaining, the quotient's terms
/// joined with `+` (`None` when there are none either).
pub open spec fn quotient_text_spec(q: Seq<Seq<char>>, rem: Option<Seq<Seq<char>>>, divisor: Seq<char>) -> Option<Seq<char>> {
    match rem {
        Some(r) => Some(
            (if r.len() == 0 { with_plus(q) } else { with_plus(q) + "("@ + join_plus(r) }) + ")/("@
                + divisor + ")"@,
        ),
        None => if q.len() == 0 {
            None
        } else {
            Some(join_plus(q))
        },
    }
}

/// Writes a quotient (see `quotient_text_spec`).
pub fn quotient_text(q: &Vec<String>, rem: Option<Vec<String>>, divisor: &str) -> (r: Option<String>)
    ensures
        r is Some <==> quotient_text_spec(q.deep_view(), rem.deep_view(), divisor@) is Some,
        r matches Some(t) ==> quotient_text_spec(q.deep_view(), rem.deep_view(), divisor@) == Some(t@),
{
    match rem {
        Some(r) => {
            let head = join_parts(q, true);
            let body = if r.len() == 0 {
                head
            } else {
                let opened = concat(head.as_str(), "(");
                let inner = join_parts(&r, false);
                concat(opened.as_str(), inner.as_str())
            };
            let over = concat(body.as_str(), ")/(");
            let with_divisor = concat(over.as_str(), divisor);
            Some(concat(with_divisor.as_str(), ")"))
        },
        None => {
            if q.len() == 0 {
                None
            } else {
                Some(join_parts(q, false))
            }
        },
    }
}

/// A written term keeps what it is made of. A constant term (power `0`) is its
/// coefficient. Any other term begins with its coefficient, unless that is one, then
/// holds `x`, and ends there for power one; from power two on it ends with the decimal
/// digits of the power, which read back as the power.
pub proof fn law_monomial_reads_back(coef: Seq<char>, coef_is_one: bool, power: usize)
    ensures
        power == 0 ==> monomial_spec(coef, coef_is_one, 0) == coef,
        power >= 1 ==> {
            let w = monomial_spec(coef, coef_is_one, power as nat);
            let k: int = if coef_is_one { 0 } else { coef.len() as int };
            &&& w.len() > k
            &&& w.take(k) == (if coef_is_one { Seq::<char>::empty() } else { coef })
            &&& w[k] == 'x'
            &&& (power == 1 ==> w.len() == k + 1)
            &&& (power >= 2 ==> parse_usize_spec(w.skip(k + 1)) == Some(power))
        },
{
    reveal_strlit("x");
    if power >= 1 {
        let w = monomial_spec(coef, coef_is_one, power as nat);
        let lead = if coef_is_one { Seq::<char>::empty() } else { coef };
        let k: int = lead.len() as int;
        let tail = if power == 1 { Seq::<char>::empty() } else { nat_text(power as nat) };
        assert(w == lead + seq!['x'] + tail);
        assert(w.take(k) =~= lead);
        assert(w.skip(k + 1) =~= tail);
        if power >= 2 {
            crate::steps::lemma_nat_text_digits(power as nat);
            let t = nat_text(power as nat);
            assert(crate::numparse::is_digit(t[0]));
            assert(crate::numparse::unsigned_digits(t) == t);
        }
    }
}

/// Splitting at a one-character separator that stands between two texts splits each of
/// them on its own.
proof fn lemma_split_around(a: Seq<char>, c: char, b: Seq<char>)
    ensures
        crate::tokens::split_spec(a + seq![c] + b, seq![c])
            == crate::tokens::split_spec(a, seq![c]) + crate::tokens::split_spec(b, seq![c]),
    decreases a.len(),
{
    let sep = seq![c];
    let t = a + sep + b;
    crate::tokens::lemma_split_nonempty(b, sep);
    if a.len() == 0 {
        assert(t =~= sep + b);
        assert(t.take(1) =~= sep);
        assert(t.skip(1) =~= b);
        assert(crate::tokens::split_spec(a, sep) == seq![Seq::<char>::empty()]);
    } else {
        lemma_split_around(a.skip(1), c, b);
        assert(t.skip(1) =~= a.skip(1) + sep + b);
        assert(t.take(1) =~= a.take(1));
        assert(t[0] == a[0]);
        if a[0] == c {
            assert(a.take(1) =~= sep);
        } else {
            assert(t.take(1) != sep) by {
                assert(t.take(1)[0] == a[0]);
            }
            assert(a.take(1) != sep) by {
                assert(a.take(1)[0] == a[0]);
            }
            crate::tokens::lemma_split_nonempty(a.skip(1), sep);
            let ra = crate::tokens::split_spec(a.skip(1), sep);
            let rb = crate::tokens::split_spec(b, sep);
            assert((ra + rb).update(0, seq![a[0]] + (ra + rb)[0]) =~= ra.update(0, seq![a[0]] + ra[0]) + rb);
        }
    }
}

proof fn lemma_split_plain(b: Seq<char>, c: char)
    requires
        !b.contains(c),
    ensures
        crate::tokens::split_spec(b, seq![c]) == seq![b],
    decreases b.len(),
{
    if b.len() > 0 {
        assert(!b.skip(1).contains(c)) by {
            if b.skip(1).contains(c) {
                let j = choose|j: int| 0 <= j < b.skip(1).len() && b.skip(1)[j] == c;
                assert(b[j + 1] == c);
            }
        }
        lemma_split_plain(b.skip(1), c);
        assert(b.take(1) != seq![c]) by {
            assert(b.take(1)[0] == b[0]);
        }
        assert(seq![b[0]] + b.skip(1) =~= b);
        assert(crate::tokens::split_spec(b.skip(1), seq![c]).update(0, seq![b[0]] + b.skip(1)) =~= seq![b]);
    } else {
        assert(b =~= Seq::<char>::empty());
    }
}

/// Reading back a written polynomial: splitting it at `+` gives back its terms, for
/// terms that hold no `+` themselves; with no term it is written `0`.
pub proof fn law_poly_text_reads_back(terms: Seq<Seq<char>>)
    requires
        forall|k: int| 0 <= k < terms.len() ==> !(#[trigger] terms[k]).contains('+'),
    ensures
        terms.len() == 0 ==> poly_text_spec(terms) == "0"@,
        terms.len() > 0 ==> crate::tokens::split_spec(poly_text_spec(terms), "+"@) == terms,
    decreases terms.len(),
{
    reveal_strlit("+");
    assert("+"@ =~= seq!['+']);
    if terms.len() == 1 {
        lemma_split_plain(terms[0], '+');
        assert(seq![terms[0]] =~= terms);
    } else if terms.len() > 1 {
        let rest = terms.drop_last();
        assert forall|k: int| 0 <= k < rest.len() implies !(#[trigger] rest[k]).contains('+') by {
            assert(rest[k] == terms[k]);
        }
        law_poly_text_reads_back(rest);
        lemma_split_around(join_plus(rest), '+', terms.last());
        assert(terms.last() == terms[terms.len() - 1]);
        lemma_split_plain(terms.last(), '+');
        assert(join_plus(terms) == join_plus(rest) + seq!['+'] + terms.last());
        assert(rest + seq![terms.last()] =~= terms);
    }
}

} // verus!
