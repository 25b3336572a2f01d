//! The choices the equation solver makes before it moves terms across `=`.

use vstd::prelude::*;
use crate::pattern::{higher_power_pattern, regex_matches, known_outcome};
use crate::format::owned;
use crate::functions::clone_tokens;
use crate::poly::{join_parts, join_plus};
use crate::steps::{remove_surr_bracs_spec, try_remove_surr_bracs};
use crate::text::{contains, contains_spec, same_text, to_chars};
use crate::tokens::{lemma_split_nonempty, split_pieces, split_spec};

verus! {

/// Whether the unknown is solved for on the right-hand side: when only the right side holds
/// `x`, or both do and the left side holds a `/`. Otherwise the left side holds the unknown
/// and the right side gives the value.
pub open spec fn unknown_on_right_spec(lhs: Seq<char>, rhs: Seq<char>) -> bool {
    let lx = contains_spec(lhs, "x"@);
    let rx = contains_spec(rhs, "x"@);
    (rx && !lx) || (rx && lx && contains_spec(lhs, "/"@))
}

/// Which side of the equation holds the unknown (see `unknown_on_right_spec`).
pub fn unknown_on_right(lhs: &str, rhs: &str) -> (r: bool)
    ensures
        r == unknown_on_right_spec(lhs@, rhs@),
{
    let lx = contains(lhs, "x");
    let rx = contains(rhs, "x");
    if rx && !lx {
        true
    } else if lx && !rx {
        false
    } else if rx && lx {
        contains(lhs, "/")
    } else {
        false
    }
}

/// Whether the side with the unknown is linear and without a quotient, so that it is solved
/// by moving its constant across and dividing by its coefficient.
pub fn solved_directly(x_side: &str) -> (r: bool)
    ensures
        r == (known_outcome(higher_power_pattern(), x_side@) != Some(true) && !contains_spec(x_side@, "/"@)),
{
    let higher = regex_matches("x[2-9]+", x_side);
    higher != Some(true) && !contains(x_side, "/")
}

/// Whether the character opens a bracket.
pub open spec fn opens_group(c: char) -> bool {
    c == '(' || c == '{' || c == '['
}

/// Whether the character closes a bracket.
pub open spec fn closes_group(c: char) -> bool {
    c == ')' || c == '}' || c == ']'
}

/// The bracket depth before position `i`: brackets opened minus brackets closed.
pub open spec fn depth_before(s: Seq<char>, i: int) -> int
    decreases i,
{
    if i <= 0 {
        0
    } else {
        depth_before(s, i - 1) + (if opens_group(s[i - 1]) {
            1int
        } else if closes_group(s[i - 1]) {
            -1int
        } else {
            0int
        })
    }
}

/// The positions before `n` where `c` stands outside every bracket, in order.
pub open spec fn top_level_at(s: Seq<char>, c: char, n: int) -> Seq<int>
    decreases n,
{
    if n <= 0 {
        Seq::empty()
    } else if s[n - 1] == c && depth_before(s, n - 1) == 0 {
        top_level_at(s, c, n - 1).push(n - 1)
    } else {
        top_level_at(s, c, n - 1)
    }
}

/// The operators that solving peels off an expression, in that order: every `+` outside
/// brackets, then every `/` outside brackets, each from the left, with its position.
pub open spec fn heirarchy_spec(s: Seq<char>) -> Seq<(int, Seq<char>)> {
    top_level_at(s, '+', s.len() as int).map_values(|k: int| (k, "+"@))
        + top_level_at(s, '/', s.len() as int).map_values(|k: int| (k, "/"@))
}

/// The view of a list of positioned operators.
pub open spec fn positioned_view(v: Seq<(usize, String)>) -> Seq<(int, Seq<char>)> {
    v.map_values(|p: (usize, String)| (p.0 as int, p.1@))
}

/// The positions of `c` outside brackets in the characters `v`.
fn top_level_positions(v: &Vec<char>, c: char) -> (r: Vec<usize>)
    ensures
        r@.map_values(|k: usize| k as int) == top_level_at(v@, c, v@.len() as int),
{
    let mut out: Vec<usize> = Vec::new();
    let mut opened: usize = 0;
    let mut closed: usize = 0;
    let mut i: usize = 0;
    while i < v.len()
        invariant
            i <= v.len(),
            opened <= i,
            closed <= i,
            opened - closed == depth_before(v@, i as int),
            out@.map_values(|k: usize| k as int) == top_level_at(v@, c, i as int),
        decreases v.len() - i,
    {
        let ch = v[i];
        if ch == c && opened == closed {
            let ghost before = out@;
            out.push(i);
            assert(out@.map_values(|k: usize| k as int) =~= before.map_values(|k: usize| k as int).push(i as int));
        }
        if ch == '(' || ch == '{' || ch == '[' {
            opened = opened + 1;
        } else if ch == ')' || ch == '}' || ch == ']' {
            closed = closed + 1;
        }
        i = i + 1;
    }
    out
}

/// The operators that solving peels off `expr` (see `heirarchy_spec`); positions count
/// characters.
pub fn operations_heirarchy(expr: String) -> (r: Vec<(usize, String)>)
    ensures
        positioned_view(r@) == heirarchy_spec(expr@),
{
    let v = to_chars(expr.as_str());
    let sums = top_level_positions(&v, '+');
    let quotients = top_level_positions(&v, '/');
    let mut out: Vec<(usize, String)> = Vec::new();
    let mut k: usize = 0;
    proof {
        reveal_strlit("+");
        reveal_strlit("/");
    }
    while k < sums.len()
        invariant
            k <= sums.len(),
            positioned_view(out@) == sums@.map_values(|p: usize| p as int).take(k as int).map_values(|p: int| (p, "+"@)),
        decreases sums.len() - k,
    {
        let ghost before = out@;
        let plus = owned("+");
        out.push((sums[k], plus));
        proof {
            let want = sums@.map_values(|p: usize| p as int).take(k + 1).map_values(|p: int| (p, "+"@));
            let had = sums@.map_values(|p: usize| p as int).take(k as int).map_values(|p: int| (p, "+"@));
            assert(out@ == before.push((sums[k as int], plus)));
            assert(positioned_view(out@) =~= positioned_view(before).push((sums[k as int] as int, "+"@)));
            assert(want =~= had.push((sums[k as int] as int, "+"@)));
        }
        k = k + 1;
    }
    assert(sums@.map_values(|p: usize| p as int).take(k as int) =~= sums@.map_values(|p: usize| p as int));
    let ghost head = positioned_view(out@);
    let mut j: usize = 0;
    while j < quotients.len()
        invariant
            j <= quotients.len(),
            positioned_view(out@) == head + quotients@.map_values(|p: usize| p as int).take(j as int).map_values(|p: int| (p, "/"@)),
        decreases quotients.len() - j,
    {
        let ghost before = out@;
        let slash = owned("/");
        out.push((quotients[j], slash));
        proof {
            let want = quotients@.map_values(|p: usize| p as int).take(j + 1).map_values(|p: int| (p, "/"@));
            let had = quotients@.map_values(|p: usize| p as int).take(j as int).map_values(|p: int| (p, "/"@));
            assert(out@ == before.push((quotients[j as int], slash)));
            assert(positioned_view(out@) =~= positioned_view(before).push((quotients[j as int] as int, "/"@)));
            assert(want =~= had.push((quotients[j as int] as int, "/"@)));
            assert(head + want =~= (head + had).push((quotients[j as int] as int, "/"@)));
        }
        j = j + 1;
    }
    assert(quotients@.map_values(|p: usize| p as int).take(j as int) =~= quotients@.map_values(|p: usize| p as int));
    out
}

/// The first of the pieces that holds no `x`.
pub open spec fn first_without_x(ps: Seq<Seq<char>>) -> Option<Seq<char>>
    decreases ps.len(),
{
    if ps.len() == 0 {
        None
    } else if !contains_spec(ps[0], "x"@) {
        Some(ps[0])
    } else {
        first_without_x(ps.skip(1))
    }
}

/// The constant term of a sum: its first piece between `+` signs that holds no `x`;
/// `None` when every piece holds one.
pub fn sum_constant(s: &str) -> (r: Option<String>)
    ensures
        r is Some <==> first_without_x(split_spec(s@, "+"@)) is Some,
        r matches Some(t) ==> first_without_x(split_spec(s@, "+"@)) == Some(t@),
{
    proof {
        reveal_strlit("+");
        reveal_strlit("x");
    }
    let pieces = split_pieces(s, "+");
    let ghost ps = pieces.deep_view();
    assert(ps.skip(0) =~= ps);
    let mut i: usize = 0;
    while i < pieces.len()
        invariant
            i <= pieces.len(),
            ps == pieces.deep_view(),
            ps == split_spec(s@, "+"@),
            first_without_x(ps) == first_without_x(ps.skip(i as int)),
        decreases pieces.len() - i,
    {
        assert(pieces[i as int]@ == ps[i as int]);
        assert(ps.skip(i as int)[0] == ps[i as int]);
        assert(ps.skip(i as int).skip(1) =~= ps.skip(i + 1));
        if !contains(pieces[i].as_str(), "x") {
            let t = pieces[i].clone();
            assert(t@ == ps[i as int]);
            return Some(t);
        }
        i = i + 1;
    }
    assert(ps.skip(i as int).len() == 0);
    None
}

/// What solving does with the next operator of one side: `Stay`; `Divide`, with the side
/// before its first `/` and, without enclosing brackets, the part after it; or
/// `Subtract`, with the side's first term and the terms after it.
pub enum Peel {
    Stay,
    Divide { numerator: String, denominator: String },
    Subtract { first: String, rest: String },
}

impl View for Peel {
    type V = (nat, Seq<char>, Seq<char>);

    /// The variant (`0`, `1` or `2` in the order declared) and its two texts.
    open spec fn view(&self) -> (nat, Seq<char>, Seq<char>) {
        match self {
            Peel::Stay => (0, Seq::empty(), Seq::empty()),
            Peel::Divide { numerator, denominator } => (1, numerator@, denominator@),
            Peel::Subtract { first, rest } => (2, first@, rest@),
        }
    }
}

/// The step for a side `own` whose next operator is `op` (see `Peel`): a `/` divides
/// (`None` when the side has no `/` left, or its denominator has no text); a `+`
/// subtracts when the other side is the one with the unknown; anything else stays.
pub open spec fn peel_spec(own: Seq<char>, op: Seq<char>, other_is_x_side: bool) -> Option<(nat, Seq<char>, Seq<char>)> {
    if op == "/"@ {
        let ps = split_spec(own, "/"@);
        if ps.len() < 2 {
            None
        } else {
            match remove_surr_bracs_spec(ps[1]) {
                None => None,
                Some(d) => Some((1nat, ps[0], d)),
            }
        }
    } else if op == "+"@ && other_is_x_side {
        let ps = split_spec(own, "+"@);
        Some((2nat, ps[0], join_plus(ps.skip(1))))
    } else {
        Some((0nat, Seq::empty(), Seq::empty()))
    }
}

/// The step for a side whose next operator is `op` (see `peel_spec`).
pub fn peel(own: &str, op: &str, other_is_x_side: bool) -> (r: Option<Peel>)
    ensures
        r is Some <==> peel_spec(own@, op@, other_is_x_side) is Some,
        r matches Some(p) ==> peel_spec(own@, op@, other_is_x_side) == Some(p@),
{
    proof {
        reveal_strlit("+");
        reveal_strlit("/");
    }
    if same_text(op, "/") {
        let ps = split_pieces(own, "/");
        assert(ps.deep_view().len() == ps.len());
        if ps.len() < 2 {
            return None;
        }
        assert(ps[0]@ == ps.deep_view()[0]);
        assert(ps[1]@ == ps.deep_view()[1]);
        match try_remove_surr_bracs(ps[1].clone()) {
            None => None,
            Some(d) => Some(Peel::Divide { numerator: ps[0].clone(), denominator: d }),
        }
    } else if same_text(op, "+") && other_is_x_side {
        let ps = split_pieces(own, "+");
        proof {
            lemma_split_nonempty(own@, "+"@);
        }
        assert(ps.deep_view().len() == ps.len());
        assert(ps[0]@ == ps.deep_view()[0]);
        let mut later: Vec<String> = Vec::new();
        let mut i: usize = 1;
        while i < ps.len()
            invariant
                1 <= i <= ps.len(),
                later.deep_view() == ps.deep_view().subrange(1, i as int),
            decreases ps.len() - i,
        {
            assert(ps[i as int]@ == ps.deep_view()[i as int]);
            let piece = ps[i].clone();
            let ghost before = later.deep_view();
            later.push(piece);
            assert(later.deep_view() =~= before.push(ps.deep_view()[i as int]));
            assert(later.deep_view() =~= ps.deep_view().subrange(1, i + 1));
            i = i + 1;
        }
        assert(ps.deep_view().subrange(1, i as int) =~= ps.deep_view().skip(1));
        let rest = join_parts(&later, false);
        Some(Peel::Subtract { first: ps[0].clone(), rest })
    } else {
        Some(Peel::Stay)
    }
}

/// The number of steps of the longest side.
pub open spec fn most_steps(h: Seq<Seq<Seq<Seq<char>>>>) -> nat
    decreases h.len(),
{
    if h.len() == 0 {
        0
    } else if h.last().len() > most_steps(h.drop_last()) {
        h.last().len()
    } else {
        most_steps(h.drop_last())
    }
}

/// The first side with the most steps (`0` when there is no side).
pub open spec fn longest_side(h: Seq<Seq<Seq<Seq<char>>>>) -> int
    decreases h.len(),
{
    if h.len() == 0 {
        0
    } else if h.last().len() > most_steps(h.drop_last()) {
        h.len() - 1
    } else {
        longest_side(h.drop_last())
    }
}

/// The steps of a side, its last step repeated until there are `n`.
pub open spec fn pad_to(steps: Seq<Seq<Seq<char>>>, n: nat) -> Seq<Seq<Seq<char>>> {
    if steps.len() >= n {
        steps
    } else {
        steps + Seq::new((n - steps.len()) as nat, |i: int| steps.last())
    }
}

proof fn lemma_longest_side(h: Seq<Seq<Seq<Seq<char>>>>)
    ensures
        h.len() > 0 ==> 0 <= longest_side(h) < h.len(),
        h.len() > 0 ==> h[longest_side(h)].len() == most_steps(h),
        forall|l: int| 0 <= l < h.len() ==> #[trigger] h[l].len() <= most_steps(h),
    decreases h.len(),
{
    if h.len() > 0 {
        lemma_longest_side(h.drop_last());
        assert forall|l: int| 0 <= l < h.len() implies #[trigger] h[l].len() <= most_steps(h) by {
            if l < h.len() - 1 {
                assert(h[l] == h.drop_last()[l]);
            }
        }
        if h.len() > 1 && h.last().len() <= most_steps(h.drop_last()) {
            assert(h[longest_side(h)] == h.drop_last()[longest_side(h.drop_last())]);
        }
    }
}

/// A copy of the steps of a side.
fn clone_steps(v: &Vec<Vec<String>>) -> (r: Vec<Vec<String>>)
    ensures
        r.deep_view() == v.deep_view(),
{
    let mut out: Vec<Vec<String>> = Vec::new();
    let mut i: usize = 0;
    while i < v.len()
        invariant
            i <= v.len(),
            out.deep_view() == v.deep_view().take(i as int),
        decreases v.len() - i,
    {
        let t = clone_tokens(&v[i]);
        let ghost before = out.deep_view();
        out.push(t);
        assert(out.deep_view() =~= before.push(v.deep_view()[i as int]));
        assert(v.deep_view().take(i + 1) =~= v.deep_view().take(i as int).push(v.deep_view()[i as int]));
        i = i + 1;
    }
    assert(v.deep_view().take(v.len() as int) =~= v.deep_view());
    out
}

/// Makes every side as long as the longest by repeating its last step, and returns the
/// first longest side. A side without steps cannot be padded, so when one side has
/// steps, every side has.
pub fn pad_sides(handside: &mut Vec<Vec<Vec<String>>>) -> (r: usize)
    requires
        forall|l: int| 0 <= l < old(handside).len() ==> (#[trigger] old(handside)[l]).len() > 0
            || most_steps(old(handside).deep_view()) == 0,
    ensures
        r == longest_side(old(handside).deep_view()),
        final(handside).deep_view() == old(handside).deep_view().map_values(
            |s: Seq<Seq<Seq<char>>>| pad_to(s, most_steps(old(handside).deep_view())),
        ),
{
    let ghost h = handside.deep_view();
    let mut max_len: usize = 0;
    let mut max_ind: usize = 0;
    let mut l: usize = 0;
    while l < handside.len()
        invariant
            l <= handside.len(),
            h == handside.deep_view(),
            max_len == most_steps(h.take(l as int)),
            max_ind == longest_side(h.take(l as int)),
        decreases handside.len() - l,
    {
        assert(h.take(l + 1).drop_last() =~= h.take(l as int));
        assert(h.take(l + 1).last() == h[l as int]);
        assert(handside[l as int].deep_view().len() == handside[l as int].len());
        if max_len < handside[l].len() {
            max_len = handside[l].len();
            max_ind = l;
        }
        l = l + 1;
    }
    assert(h.take(l as int) =~= h);
    proof {
        lemma_longest_side(h);
    }
    let mut out: Vec<Vec<Vec<String>>> = Vec::new();
    let mut k: usize = 0;
    while k < handside.len()
        invariant
            k <= handside.len(),
            h == handside.deep_view(),
            max_len == most_steps(h),
            forall|l: int| 0 <= l < h.len() ==> (#[trigger] h[l]).len() > 0 || most_steps(h) == 0,
            forall|l: int| 0 <= l < h.len() ==> (#[trigger] h[l]).len() <= most_steps(h),
            out.deep_view() == h.take(k as int).map_values(|s: Seq<Seq<Seq<char>>>| pad_to(s, most_steps(h))),
        decreases handside.len() - k,
    {
        let mut side = clone_steps(&handside[k]);
        let ghost orig = h[k as int];
        assert(side.deep_view() == orig);
        assert(side.deep_view().len() == side.len());
        let n0 = side.len();
        while side.len() < max_len
            invariant
                n0 <= side.len() <= max_len,
                n0 == orig.len(),
                n0 > 0 || max_len == 0,
                side.deep_view() == orig + Seq::new((side.len() - n0) as nat, |i: int| orig.last()),
            decreases max_len - side.len(),
        {
            assert(side.deep_view().len() == side.len());
            assert(side.deep_view()[n0 - 1] == orig.last());
            let last = clone_tokens(&side[n0 - 1]);
            let ghost before = side.deep_view();
            side.push(last);
            assert(side.deep_view() =~= before.push(orig.last()));
            assert(side.deep_view() =~= orig + Seq::new((side.len() - n0) as nat, |i: int| orig.last()));
        }
        assert(side.deep_view() =~= pad_to(orig, most_steps(h)));
        let ghost before = out.deep_view();
        out.push(side);
        assert(out.deep_view() =~= before.push(pad_to(orig, most_steps(h))));
        assert(h.take(k + 1) =~= h.take(k as int).push(orig));
        assert(h.take(k + 1).map_values(|s: Seq<Seq<Seq<char>>>| pad_to(s, most_steps(h)))
            =~= h.take(k as int).map_values(|s: Seq<Seq<Seq<char>>>| pad_to(s, most_steps(h))).push(pad_to(orig, most_steps(h))));
        k = k + 1;
    }
    assert(h.take(k as int) =~= h);
    *handside = out;
    max_ind
}

/// Step `k` of the main side `m` with step `k` of each of the first `n` other sides put
/// after it, each behind a `" = "` token (sides with fewer steps add nothing).
pub open spec fn merged_step(h: Seq<Seq<Seq<Seq<char>>>>, m: int, k: int, n: int) -> Seq<Seq<char>>
    decreases n,
{
    if n <= 0 {
        h[m][k]
    } else if n - 1 != m && k < h[n - 1].len() {
        merged_step(h, m, k, n - 1) + seq![" = "@] + h[n - 1][k]
    } else {
        merged_step(h, m, k, n - 1)
    }
}

/// The steps of the whole equation: every step of the main side `m` merged with the
/// same step of every other side (see `merged_step`).
pub open spec fn merged_sides(h: Seq<Seq<Seq<Seq<char>>>>, m: int) -> Seq<Seq<Seq<char>>> {
    Seq::new(h[m].len(), |k: int| merged_step(h, m, k, h.len() as int))
}

/// The steps of the whole equation (see `merged_sides`); every side has at most as many
/// steps as the main one.
pub fn merge_sides(handside: &Vec<Vec<Vec<String>>>, main: usize) -> (r: Vec<Vec<String>>)
    requires
        main < handside.len(),
        forall|l: int| 0 <= l < handside.len() ==> (#[trigger] handside[l]).len() <= handside[main as int].len(),
    ensures
        r.deep_view() == merged_sides(handside.deep_view(), main as int),
{
    let ghost h = handside.deep_view();
    proof {
        reveal_strlit(" = ");
    }
    assert(h[main as int].len() == handside[main as int].len());
    let mut out: Vec<Vec<String>> = Vec::new();
    let mut k: usize = 0;
    while k < handside[main].len()
        invariant
            h == handside.deep_view(),
            main < handside.len(),
            k <= handside[main as int].len(),
            h[main as int].len() == handside[main as int].len(),
            out.deep_view() == merged_sides(h, main as int).take(k as int),
        decreases handside[main as int].len() - k,
    {
        let mut step = clone_tokens(&handside[main][k]);
        assert(step.deep_view() == merged_step(h, main as int, k as int, 0));
        let mut hand: usize = 0;
        while hand < handside.len()
            invariant
                h == handside.deep_view(),
                main < handside.len(),
                k < handside[main as int].len(),
                hand <= handside.len(),
                step.deep_view() == merged_step(h, main as int, k as int, hand as int),
            decreases handside.len() - hand,
        {
            assert(h[hand as int].len() == handside[hand as int].len());
            if hand != main && k < handside[hand].len() {
                let ghost before = step.deep_view();
                step.push(owned(" = "));
                let other = &handside[hand][k];
                let mut t: usize = 0;
                assert(other.deep_view() == h[hand as int][k as int]);
                while t < other.len()
                    invariant
                        t <= other.len(),
                        step.deep_view() == before + seq![" = "@] + other.deep_view().take(t as int),
                    decreases other.len() - t,
                {
                    let tok = other[t].clone();
                    let ghost mid = step.deep_view();
                    step.push(tok);
                    assert(step.deep_view() =~= mid.push(other.deep_view()[t as int]));
                    assert(other.deep_view().take(t + 1) =~= other.deep_view().take(t as int).push(other.deep_view()[t as int]));
                    t = t + 1;
                }
                assert(other.deep_view().take(t as int) =~= other.deep_view());
            }
            hand = hand + 1;
        }
        let ghost before = out.deep_view();
        out.push(step);
        assert(out.deep_view() =~= before.push(merged_step(h, main as int, k as int, h.len() as int)));
        assert(merged_sides(h, main as int).take(k + 1) =~= merged_sides(h, main as int).take(k as int).push(
            merged_step(h, main as int, k as int, h.len() as int),
        ));
        k = k + 1;
    }
    assert(merged_sides(h, main as int).take(k as int) =~= merged_sides(h, main as int));
    out
}

/// Once padded, every side has as many steps as the longest one, so that the sides can be
/// merged around the first longest.
pub proof fn law_padded_sides_line_up(h: Seq<Seq<Seq<Seq<char>>>>)
    requires
        forall|l: int| 0 <= l < h.len() ==> (#[trigger] h[l]).len() > 0 || most_steps(h) == 0,
    ensures
        forall|l: int| 0 <= l < h.len() ==> (#[trigger] pad_to(h[l], most_steps(h))).len() == most_steps(h),
        h.len() > 0 ==> 0 <= longest_side(h) < h.len() && h[longest_side(h)].len() == most_steps(h),
{
    lemma_longest_side(h);
}

} // verus!
