//! Brackets: recognising them, pairing them, and completing unbalanced input.

use vstd::prelude::*;
use crate::text::{char_string, to_chars};

verus! {

/// The character of a one-character token.
pub open spec fn sole(t: Seq<char>) -> Option<char> {
    if t.len() == 1 {
        Some(t[0])
    } else {
        None
    }
}

/// Position of an opening bracket in `( { [`, or -1.
pub open spec fn open_kind(t: Seq<char>) -> int {
    if sole(t) == Some('(') {
        0
    } else if sole(t) == Some('{') {
        1
    } else if sole(t) == Some('[') {
        2
    } else {
        -1
    }
}

/// Position of a closing bracket in `) } ]`, or -1.
pub open spec fn close_kind(t: Seq<char>) -> int {
    if sole(t) == Some(')') {
        0
    } else if sole(t) == Some('}') {
        1
    } else if sole(t) == Some(']') {
        2
    } else {
        -1
    }
}

/// The token is an opening bracket.
pub open spec fn is_open(t: Seq<char>) -> bool {
    open_kind(t) >= 0
}

/// The token is a closing bracket.
pub open spec fn is_close(t: Seq<char>) -> bool {
    close_kind(t) >= 0
}

/// The kind of a bracket of either side, or -1 for any other token.
pub open spec fn bracket_kind(t: Seq<char>) -> int {
    if is_open(t) {
        open_kind(t)
    } else {
        close_kind(t)
    }
}

/// The opening bracket of a kind.
pub open spec fn open_of_kind(k: int) -> Seq<char> {
    if k == 0 {
        seq!['(']
    } else if k == 1 {
        seq!['{']
    } else {
        seq!['[']
    }
}

/// The closing bracket of a kind.
pub open spec fn close_of_kind(k: int) -> Seq<char> {
    if k == 0 {
        seq![')']
    } else if k == 1 {
        seq!['}']
    } else {
        seq![']']
    }
}

/// The closing partner of an opening bracket; any other token unchanged.
pub open spec fn closing_for(t: Seq<char>) -> Seq<char> {
    if is_open(t) {
        close_of_kind(open_kind(t))
    } else {
        t
    }
}

/// The opening partner of a closing bracket; any other token unchanged.
pub open spec fn opening_for(t: Seq<char>) -> Seq<char> {
    if is_close(t) {
        open_of_kind(close_kind(t))
    } else {
        t
    }
}

/// The sign of the difference of the two tokens' bracket kinds.
pub open spec fn compare_spec(a: Seq<char>, b: Seq<char>) -> int {
    if bracket_kind(a) > bracket_kind(b) {
        1
    } else if bracket_kind(a) < bracket_kind(b) {
        -1
    } else {
        0
    }
}

/// The character of a token made of exactly one character.
fn sole_char(t: &str) -> (r: Option<char>)
    ensures
        r == sole(t@),
{
    let v = to_chars(t);
    if v.len() == 1 {
        Some(v[0])
    } else {
        None
    }
}

/// Whether the token is one of `(`, `{`, `[`.
pub fn is_string_lbrac(str: String) -> (r: bool)
    ensures
        r == is_open(str@),
{
    let c = sole_char(str.as_str());
    c == Some('(') || c == Some('{') || c == Some('[')
}

/// Whether the token is one of `)`, `}`, `]`.
pub fn is_string_rbrac(str: String) -> (r: bool)
    ensures
        r == is_close(str@),
{
    let c = sole_char(str.as_str());
    c == Some(')') || c == Some('}') || c == Some(']')
}

/// The closing bracket that pairs with an opening one; other tokens are returned unchanged.
pub fn give_rbrac_from_lbrac(l_brac: String) -> (r: String)
    ensures
        r@ == closing_for(l_brac@),
{
    let c = sole_char(l_brac.as_str());
    if c == Some('(') {
        char_string(')')
    } else if c == Some('{') {
        char_string('}')
    } else if c == Some('[') {
        char_string(']')
    } else {
        l_brac
    }
}

/// The opening bracket that pairs with a closing one; other tokens are returned unchanged.
pub fn give_lbrac_from_rbrac(r_brac: String) -> (r: String)
    ensures
        r@ == opening_for(r_brac@),
{
    let c = sole_char(r_brac.as_str());
    if c == Some(')') {
        char_string('(')
    } else if c == Some('}') {
        char_string('{')
    } else if c == Some(']') {
        char_string('[')
    } else {
        r_brac
    }
}

fn kind_of(t: &str) -> (r: i32)
    ensures
        r == bracket_kind(t@),
{
    let c = sole_char(t);
    if c == Some('(') || c == Some(')') {
        0
    } else if c == Some('{') || c == Some('}') {
        1
    } else if c == Some('[') || c == Some(']') {
        2
    } else {
        -1
    }
}

/// Orders two brackets by kind, round before curly before square, regardless of side:
/// 1 when the first comes later, -1 when it comes earlier, 0 when the kinds agree.
/// Any other token counts as coming before every bracket.
pub fn compare_brac(brac1: String, brac2: String) -> (r: i32)
    ensures
        r == compare_spec(brac1@, brac2@),
{
    let k1 = kind_of(brac1.as_str());
    let k2 = kind_of(brac2.as_str());
    if k1 > k2 {
        1
    } else if k1 < k2 {
        -1
    } else {
        0
    }
}


/// The state of one left-to-right bracket-completion pass.
pub struct BracketScan {
    /// The token list being repaired.
    pub out: Seq<Seq<char>>,
    /// The opening brackets not yet closed, innermost last.
    pub stack: Seq<Seq<char>>,
    /// For each open bracket on the stack, its index in the input.
    pub pos: Seq<int>,
    /// The running count of inserted brackets.
    pub missed: int,
}

/// One token of the pass: an opening bracket is remembered; a closing bracket either
/// closes the innermost open one, or a partner is inserted (an opening one just after the
/// innermost open bracket when that one has the later kind, a closing one for the innermost
/// open bracket before this token when it has the earlier kind, an opening one at the very
/// front when nothing is open). Insert positions are indices of the input, not of `out`.
pub open spec fn scan_step(st: BracketScan, ind: int, ch: Seq<char>) -> BracketScan {
    if is_open(ch) {
        BracketScan { out: st.out, stack: st.stack.push(ch), pos: st.pos.push(ind), missed: st.missed }
    } else if is_close(ch) {
        if st.stack.len() > 0 {
            let top = st.stack.last();
            if compare_spec(top, ch) == 1 {
                BracketScan {
                    out: st.out.insert(st.pos.last() + 1, opening_for(ch)),
                    stack: st.stack,
                    pos: st.pos,
                    missed: st.missed + 1,
                }
            } else if compare_spec(top, ch) == -1 {
                BracketScan {
                    out: st.out.insert(ind, closing_for(top)),
                    stack: st.stack.drop_last(),
                    pos: st.pos.drop_last(),
                    missed: st.missed + 1,
                }
            } else {
                BracketScan { out: st.out, stack: st.stack.drop_last(), pos: st.pos.drop_last(), missed: st.missed }
            }
        } else {
            BracketScan { out: st.out.insert(0, opening_for(ch)), stack: st.stack, pos: st.pos, missed: st.missed + 1 }
        }
    } else {
        st
    }
}

/// The pass after its first `n` tokens.
pub open spec fn scan_upto(inp: Seq<Seq<char>>, missed: int, n: int) -> BracketScan
    decreases n,
{
    if n <= 0 {
        BracketScan { out: inp, stack: seq![], pos: seq![], missed }
    } else {
        scan_step(scan_upto(inp, missed, n - 1), n - 1, inp[n - 1])
    }
}

/// Closes every bracket left open, innermost first, at the end of the list.
pub open spec fn close_all(out: Seq<Seq<char>>, stack: Seq<Seq<char>>, missed: int) -> (Seq<Seq<char>>, int)
    decreases stack.len(),
{
    if stack.len() == 0 {
        (out, missed)
    } else {
        close_all(out.push(closing_for(stack.last())), stack.drop_last(), missed + 1)
    }
}

/// One whole bracket-completion pass: the repaired list and the updated count.
pub open spec fn unequal_brac_spec(inp: Seq<Seq<char>>, missed: int) -> (Seq<Seq<char>>, int) {
    let st = scan_upto(inp, missed, inp.len() as int);
    close_all(st.out, st.stack, st.missed)
}

/// Facts that hold after every prefix of a pass.
proof fn lemma_scan_shape(inp: Seq<Seq<char>>, missed: int, n: int)
    requires
        0 <= n <= inp.len(),
    ensures
        scan_upto(inp, missed, n).out.len() == inp.len() + scan_upto(inp, missed, n).missed - missed,
        scan_upto(inp, missed, n).missed >= missed,
        scan_upto(inp, missed, n).pos.len() == scan_upto(inp, missed, n).stack.len(),
        forall|k: int| 0 <= k < scan_upto(inp, missed, n).pos.len()
            ==> 0 <= #[trigger] scan_upto(inp, missed, n).pos[k] < n,
        forall|k: int| 0 <= k < scan_upto(inp, missed, n).stack.len()
            ==> is_open(#[trigger] scan_upto(inp, missed, n).stack[k]),
    decreases n,
{
    if n > 0 {
        lemma_scan_shape(inp, missed, n - 1);
        let st = scan_upto(inp, missed, n - 1);
        let st2 = scan_upto(inp, missed, n);
        assert(st2 == scan_step(st, n - 1, inp[n - 1]));
        assert forall|k: int| 0 <= k < st2.pos.len() implies 0 <= #[trigger] st2.pos[k] < n by {
            if k < st.pos.len() {
                assert(st2.pos[k] == st.pos[k]);
            }
        }
        assert forall|k: int| 0 <= k < st2.stack.len() implies is_open(#[trigger] st2.stack[k]) by {
            if k < st.stack.len() {
                assert(st2.stack[k] == st.stack[k]);
            }
        }
    }
}

/// The count only grows along a pass.
proof fn lemma_scan_missed_grows(inp: Seq<Seq<char>>, missed: int, n: int, m: int)
    requires
        0 <= n <= m <= inp.len(),
    ensures
        scan_upto(inp, missed, n).missed <= scan_upto(inp, missed, m).missed,
    decreases m - n,
{
    if n < m {
        lemma_scan_missed_grows(inp, missed, n, m - 1);
    }
}

proof fn lemma_close_all_shape(out: Seq<Seq<char>>, stack: Seq<Seq<char>>, missed: int)
    ensures
        close_all(out, stack, missed).1 == missed + stack.len(),
        close_all(out, stack, missed).0.len() == out.len() + stack.len(),
        close_all(out, stack, missed).0.subrange(0, out.len() as int) == out,
    decreases stack.len(),
{
    if stack.len() > 0 {
        let out2 = out.push(closing_for(stack.last()));
        lemma_close_all_shape(out2, stack.drop_last(), missed + 1);
        let r = close_all(out2, stack.drop_last(), missed + 1).0;
        assert(r.subrange(0, out.len() as int) =~= r.subrange(0, out2.len() as int).subrange(0, out.len() as int));
        assert(out2.subrange(0, out.len() as int) =~= out);
    }
}

/// One bracket-completion pass over the tokens (see `scan_step`): returns the repaired
/// tokens and `missed_bracs` increased by the number of brackets inserted.
pub fn unequal_brac(inp_vec: Vec<String>, missed_bracs: i32) -> (r: (Vec<String>, i32))
    requires
        unequal_brac_spec(inp_vec.deep_view(), missed_bracs as int).1 <= i32::MAX,
    ensures
        (r.0.deep_view(), r.1 as int) == unequal_brac_spec(inp_vec.deep_view(), missed_bracs as int),
{
    match unequal_brac_checked(inp_vec, missed_bracs) {
        Some(r) => r,
        None => {
            assert(false);
            (Vec::new(), 0)
        },
    }
}

/// `unequal_brac`, or `None` when the count would pass `i32::MAX` (where
/// `unequal_brac` itself would overflow).
pub fn unequal_brac_checked(inp_vec: Vec<String>, missed_bracs: i32) -> (r: Option<(Vec<String>, i32)>)
    ensures
        r is Some <==> unequal_brac_spec(inp_vec.deep_view(), missed_bracs as int).1 <= i32::MAX,
        r matches Some(x) ==> (x.0.deep_view(), x.1 as int) == unequal_brac_spec(inp_vec.deep_view(), missed_bracs as int),
{
    let ghost inp = inp_vec.deep_view();
    let ghost m0 = missed_bracs as int;
    let mut missed: i32 = missed_bracs;
    let mut brac_stack: Vec<String> = Vec::new();
    let mut new_inp_vec: Vec<String> = Vec::new();
    let mut brac_pos: Vec<usize> = Vec::new();
    let mut k: usize = 0;
    while k < inp_vec.len()
        invariant
            k <= inp_vec.len(),
            inp == inp_vec.deep_view(),
            new_inp_vec.deep_view() == inp.take(k as int),
        decreases inp_vec.len() - k,
    {
        let t = inp_vec[k].clone();
        assert(t@ == inp[k as int]);
        let ghost before = new_inp_vec.deep_view();
        new_inp_vec.push(t);
        assert(new_inp_vec.deep_view() =~= before.push(inp[k as int]));
        assert(inp.take(k as int + 1) =~= inp.take(k as int).push(inp[k as int]));
        k = k + 1;
    }
    assert(inp.take(inp.len() as int) =~= inp);
    proof {
        let st = scan_upto(inp, m0, inp.len() as int);
        lemma_scan_shape(inp, m0, inp.len() as int);
        lemma_close_all_shape(st.out, st.stack, st.missed);
    }
    let mut ind: usize = 0;
    while ind < inp_vec.len()
        invariant
            ind <= inp_vec.len(),
            inp == inp_vec.deep_view(),
            m0 == missed_bracs as int,
            scan_upto(inp, m0, inp.len() as int).missed <= unequal_brac_spec(inp, m0).1,
            new_inp_vec.deep_view() == scan_upto(inp, m0, ind as int).out,
            brac_stack.deep_view() == scan_upto(inp, m0, ind as int).stack,
            brac_pos@.len() == scan_upto(inp, m0, ind as int).pos.len(),
            forall|j: int| 0 <= j < brac_pos@.len() ==> brac_pos@[j] as int == #[trigger] scan_upto(inp, m0, ind as int).pos[j],
            missed as int == scan_upto(inp, m0, ind as int).missed,
        decreases inp_vec.len() - ind,
    {
        let ghost st = scan_upto(inp, m0, ind as int);
        proof {
            lemma_scan_shape(inp, m0, ind as int);
            lemma_scan_missed_grows(inp, m0, ind as int + 1, inp.len() as int);
            lemma_scan_missed_grows(inp, m0, ind as int, inp.len() as int);
        }
        let ghost st2 = scan_step(st, ind as int, inp[ind as int]);
        assert(st2 == scan_upto(inp, m0, ind as int + 1));
        let ch = inp_vec[ind].clone();
        if is_string_lbrac(ch.clone()) {
            brac_stack.push(ch);
            brac_pos.push(ind);
            assert(brac_stack.deep_view() =~= st2.stack);
        } else if is_string_rbrac(ch.clone()) {
            if brac_stack.len() > 0 {
                let top = brac_stack[brac_stack.len() - 1].clone();
                assert(top@ == st.stack.last());
                let c = compare_brac(top.clone(), ch.clone());
                if c == 1 {
                    let p = brac_pos[brac_pos.len() - 1];
                    new_inp_vec.insert(p + 1, give_lbrac_from_rbrac(ch));
                    missed = match missed.checked_add(1) {
                        Some(x) => x,
                        None => {
                            assert(st2.missed == missed + 1);
                            assert(scan_upto(inp, m0, ind as int + 1).missed <= scan_upto(inp, m0, inp.len() as int).missed);
                            assert(unequal_brac_spec(inp, m0).1 > i32::MAX);
                            return None;
                        },
                    };
                    assert(new_inp_vec.deep_view() =~= st2.out);
                } else if c == -1 {
                    new_inp_vec.insert(ind, give_rbrac_from_lbrac(top));
                    missed = match missed.checked_add(1) {
                        Some(x) => x,
                        None => {
                            assert(st2.missed == missed + 1);
                            assert(scan_upto(inp, m0, ind as int + 1).missed <= scan_upto(inp, m0, inp.len() as int).missed);
                            assert(unequal_brac_spec(inp, m0).1 > i32::MAX);
                            return None;
                        },
                    };
                    brac_stack.pop();
                    brac_pos.pop();
                    assert(new_inp_vec.deep_view() =~= st2.out);
                    assert(brac_stack.deep_view() =~= st2.stack);
                } else {
                    brac_stack.pop();
                    brac_pos.pop();
                    assert(brac_stack.deep_view() =~= st2.stack);
                }
            } else {
                new_inp_vec.insert(0, give_lbrac_from_rbrac(ch));
                missed = match missed.checked_add(1) {
                        Some(x) => x,
                        None => {
                            assert(st2.missed == missed + 1);
                            assert(scan_upto(inp, m0, ind as int + 1).missed <= scan_upto(inp, m0, inp.len() as int).missed);
                            assert(unequal_brac_spec(inp, m0).1 > i32::MAX);
                            return None;
                        },
                    };
                assert(new_inp_vec.deep_view() =~= st2.out);
            }
        }
        ind = ind + 1;
    }
    let ghost st = scan_upto(inp, m0, inp.len() as int);
    proof {
        lemma_close_all_shape(st.out, st.stack, st.missed);
    }
    while brac_stack.len() > 0
        invariant
            unequal_brac_spec(inp, m0) == close_all(new_inp_vec.deep_view(), brac_stack.deep_view(), missed as int),
            inp == inp_vec.deep_view(),
            m0 == missed_bracs as int,
        decreases brac_stack.len(),
    {
        proof {
            lemma_close_all_shape(new_inp_vec.deep_view(), brac_stack.deep_view(), missed as int);
        }
        let ghost old_stack = brac_stack.deep_view();
        let ghost old_out = new_inp_vec.deep_view();
        let top = brac_stack[brac_stack.len() - 1].clone();
        assert(top@ == old_stack.last());
        new_inp_vec.push(give_rbrac_from_lbrac(top));
        missed = match missed.checked_add(1) {
                        Some(x) => x,
                        None => {
                            proof {
                                lemma_close_all_shape(old_out, old_stack, missed as int);
                            }
                            return None;
                        },
                    };
        brac_stack.pop();
        assert(brac_stack.deep_view() =~= old_stack.drop_last());
        assert(new_inp_vec.deep_view() =~= old_out.push(closing_for(old_stack.last())));
    }
    Some((new_inp_vec, missed))
}

/// The kinds of the brackets still open after the first `n` tokens, innermost last;
/// `None` once a closing bracket does not close the innermost open one.
pub open spec fn open_after(inp: Seq<Seq<char>>, n: int) -> Option<Seq<int>>
    decreases n,
{
    if n <= 0 {
        Some(seq![])
    } else {
        match open_after(inp, n - 1) {
            None => None,
            Some(ks) => {
                let t = inp[n - 1];
                if is_open(t) {
                    Some(ks.push(open_kind(t)))
                } else if is_close(t) {
                    if ks.len() > 0 && ks.last() == close_kind(t) {
                        Some(ks.drop_last())
                    } else {
                        None
                    }
                } else {
                    Some(ks)
                }
            },
        }
    }
}

/// Every closing bracket closes the innermost open bracket of its kind, and none is left open.
pub open spec fn balanced(inp: Seq<Seq<char>>) -> bool {
    open_after(inp, inp.len() as int) == Some(Seq::<int>::empty())
}

proof fn lemma_scan_tracks_nesting(inp: Seq<Seq<char>>, missed: int, n: int)
    requires
        0 <= n <= inp.len(),
    ensures
        open_after(inp, n) matches Some(ks) ==> {
            let st = scan_upto(inp, missed, n);
            &&& st.out == inp
            &&& st.missed == missed
            &&& st.stack.len() == ks.len()
            &&& forall|k: int| 0 <= k < ks.len() ==> open_kind(#[trigger] st.stack[k]) == ks[k]
        },
        open_after(inp, n) is None ==> scan_upto(inp, missed, n).missed > missed,
    decreases n,
{
    if n > 0 {
        lemma_scan_tracks_nesting(inp, missed, n - 1);
        lemma_scan_shape(inp, missed, n - 1);
        let st = scan_upto(inp, missed, n - 1);
        let st2 = scan_upto(inp, missed, n);
        assert(st2 == scan_step(st, n - 1, inp[n - 1]));
        let t = inp[n - 1];
        match open_after(inp, n - 1) {
            None => {},
            Some(ks) => {
                if is_open(t) {
                    assert forall|k: int| 0 <= k < ks.len() + 1 implies open_kind(#[trigger] st2.stack[k]) == ks.push(open_kind(t))[k] by {
                        if k < ks.len() {
                            assert(st2.stack[k] == st.stack[k]);
                        }
                    }
                } else if is_close(t) {
                    if ks.len() > 0 {
                        assert(open_kind(st.stack.last()) == ks.last());
                        assert(is_open(st.stack.last()));
                        if ks.last() == close_kind(t) {
                            assert(compare_spec(st.stack.last(), t) == 0);
                            assert forall|k: int| 0 <= k < ks.len() - 1 implies open_kind(#[trigger] st2.stack[k]) == ks.drop_last()[k] by {
                                assert(st2.stack[k] == st.stack[k]);
                            }
                        } else {
                            assert(compare_spec(st.stack.last(), t) != 0);
                        }
                    }
                }
            },
        }
    }
}

/// A bracket-completion pass leaves the tokens and the count unchanged exactly when the
/// brackets are already balanced; so when repeated passes come to one that changes
/// nothing, the brackets are balanced.
pub proof fn law_pass_is_identity_iff_balanced(inp: Seq<Seq<char>>, missed: int)
    ensures
        unequal_brac_spec(inp, missed) == (inp, missed) <==> balanced(inp),
{
    let n = inp.len() as int;
    lemma_scan_tracks_nesting(inp, missed, n);
    lemma_scan_shape(inp, missed, n);
    let st = scan_upto(inp, missed, n);
    lemma_close_all_shape(st.out, st.stack, st.missed);
    let r = unequal_brac_spec(inp, missed);
    assert(r == close_all(st.out, st.stack, st.missed));
    if balanced(inp) {
        assert(st.stack.len() == 0);
        assert(r.0 == inp && r.1 == missed);
    } else {
        match open_after(inp, n) {
            None => {
                assert(r.1 > missed);
            },
            Some(ks) => {
                assert(ks.len() != 0) by {
                    if ks.len() == 0 {
                        assert(ks =~= Seq::<int>::empty());
                    }
                }
                assert(r.1 > missed);
            },
        }
    }
}

/// Each pass inserts exactly as many tokens as it adds to the count, and keeps every
/// count it was given: the count never goes down.
pub proof fn law_pass_counts_insertions(inp: Seq<Seq<char>>, missed: int)
    ensures
        unequal_brac_spec(inp, missed).0.len() == inp.len() + (unequal_brac_spec(inp, missed).1 - missed),
        unequal_brac_spec(inp, missed).1 >= missed,
{
    let n = inp.len() as int;
    lemma_scan_shape(inp, missed, n);
    let st = scan_upto(inp, missed, n);
    lemma_close_all_shape(st.out, st.stack, st.missed);
}


/// The closing partner of an opening bracket has that bracket as its opening partner,
/// and the other way round.
pub proof fn law_partners_invert(t: Seq<char>)
    ensures
        is_open(t) ==> opening_for(closing_for(t)) == t,
        is_close(t) ==> closing_for(opening_for(t)) == t,
{
    if is_open(t) {
        assert(t =~= open_of_kind(open_kind(t)));
    }
    if is_close(t) {
        assert(t =~= close_of_kind(close_kind(t)));
    }
}

/// Comparing two tokens the other way round gives the opposite answer.
pub proof fn law_compare_antisymmetric(a: Seq<char>, b: Seq<char>)
    ensures
        compare_spec(a, b) == -compare_spec(b, a),
{
}

/// The tokens that are not brackets, in order.
pub open spec fn non_brackets(s: Seq<Seq<char>>) -> Seq<Seq<char>>
    decreases s.len(),
{
    if s.len() == 0 {
        s
    } else if is_open(s.last()) || is_close(s.last()) {
        non_brackets(s.drop_last())
    } else {
        non_brackets(s.drop_last()).push(s.last())
    }
}

proof fn lemma_non_brackets_insert(s: Seq<Seq<char>>, i: int, b: Seq<char>)
    requires
        0 <= i <= s.len(),
        is_open(b) || is_close(b),
    ensures
        non_brackets(s.insert(i, b)) == non_brackets(s),
    decreases s.len(),
{
    if i == s.len() {
        assert(s.insert(i, b) =~= s.push(b));
        assert(s.push(b).drop_last() =~= s);
    } else {
        lemma_non_brackets_insert(s.drop_last(), i, b);
        assert(s.insert(i, b).drop_last() =~= s.drop_last().insert(i, b));
        assert(s.insert(i, b).last() == s.last());
    }
}

proof fn lemma_scan_keeps_non_brackets(inp: Seq<Seq<char>>, missed: int, n: int)
    requires
        0 <= n <= inp.len(),
    ensures
        non_brackets(scan_upto(inp, missed, n).out) == non_brackets(inp),
    decreases n,
{
    if n > 0 {
        lemma_scan_keeps_non_brackets(inp, missed, n - 1);
        lemma_scan_shape(inp, missed, n - 1);
        let st = scan_upto(inp, missed, n - 1);
        let ch = inp[n - 1];
        if is_close(ch) {
            if st.stack.len() > 0 {
                let top = st.stack.last();
                assert(is_open(top));
                if compare_spec(top, ch) == 1 {
                    lemma_non_brackets_insert(st.out, st.pos.last() + 1, opening_for(ch));
                } else if compare_spec(top, ch) == -1 {
                    lemma_non_brackets_insert(st.out, n - 1, closing_for(top));
                }
            } else {
                lemma_non_brackets_insert(st.out, 0, opening_for(ch));
            }
        }
    }
}

proof fn lemma_close_all_keeps_non_brackets(out: Seq<Seq<char>>, stack: Seq<Seq<char>>, missed: int)
    requires
        forall|k: int| 0 <= k < stack.len() ==> is_open(#[trigger] stack[k]),
    ensures
        non_brackets(close_all(out, stack, missed).0) == non_brackets(out),
    decreases stack.len(),
{
    if stack.len() > 0 {
        let c = closing_for(stack.last());
        assert(is_open(stack[stack.len() - 1]));
        assert(out.push(c).drop_last() =~= out);
        assert forall|k: int| 0 <= k < stack.drop_last().len() implies is_open(#[trigger] stack.drop_last()[k]) by {
            assert(stack.drop_last()[k] == stack[k]);
        }
        lemma_close_all_keeps_non_brackets(out.push(c), stack.drop_last(), missed + 1);
    }
}

/// Bracket completion only adds brackets: the other tokens stay, in their order.
pub proof fn law_pass_only_adds_brackets(inp: Seq<Seq<char>>, missed: int)
    ensures
        non_brackets(unequal_brac_spec(inp, missed).0) == non_brackets(inp),
{
    let n = inp.len() as int;
    lemma_scan_keeps_non_brackets(inp, missed, n);
    lemma_scan_shape(inp, missed, n);
    let st = scan_upto(inp, missed, n);
    lemma_close_all_keeps_non_brackets(st.out, st.stack, st.missed);
}

proof fn lemma_open_after_push(s: Seq<Seq<char>>, x: Seq<char>, n: int)
    requires
        0 <= n <= s.len(),
    ensures
        open_after(s.push(x), n) == open_after(s, n),
    decreases n,
{
    if n > 0 {
        lemma_open_after_push(s, x, n - 1);
        assert(s.push(x)[n - 1] == s[n - 1]);
    }
}

proof fn lemma_closing_partner(t: Seq<char>)
    requires
        is_open(t),
    ensures
        is_close(closing_for(t)),
        !is_open(closing_for(t)),
        close_kind(closing_for(t)) == open_kind(t),
{
    let c = closing_for(t);
    assert(c == close_of_kind(open_kind(t)));
    assert(sole(c) == Some(c[0]));
}

proof fn lemma_close_all_balances(out: Seq<Seq<char>>, stack: Seq<Seq<char>>, ks: Seq<int>, missed: int)
    requires
        open_after(out, out.len() as int) == Some(ks),
        stack.len() == ks.len(),
        forall|k: int| 0 <= k < stack.len() ==> is_open(#[trigger] stack[k]),
        forall|k: int| 0 <= k < stack.len() ==> open_kind(#[trigger] stack[k]) == ks[k],
    ensures
        balanced(close_all(out, stack, missed).0),
    decreases stack.len(),
{
    if stack.len() == 0 {
        assert(ks =~= Seq::<int>::empty());
    } else {
        let t = stack.last();
        assert(is_open(stack[stack.len() - 1]));
        assert(open_kind(stack[stack.len() - 1]) == ks[ks.len() - 1]);
        let c = closing_for(t);
        lemma_closing_partner(t);
        let out2 = out.push(c);
        lemma_open_after_push(out, c, out.len() as int);
        assert(out2[out2.len() - 1] == c);
        assert(open_after(out2, out2.len() as int) == Some(ks.drop_last()));
        assert forall|k: int| 0 <= k < stack.drop_last().len() implies is_open(#[trigger] stack.drop_last()[k]) by {
            assert(stack.drop_last()[k] == stack[k]);
        }
        assert forall|k: int| 0 <= k < stack.drop_last().len() implies open_kind(#[trigger] stack.drop_last()[k]) == ks.drop_last()[k] by {
            assert(stack.drop_last()[k] == stack[k]);
        }
        lemma_close_all_balances(out2, stack.drop_last(), ks.drop_last(), missed + 1);
    }
}

/// When every closing bracket closes the innermost open one, a single pass completes the
/// brackets: it keeps the tokens, adds a closing bracket for every bracket left open
/// (counted in `missed_bracs`), and the result is balanced.
pub proof fn law_pass_closes_open_brackets(inp: Seq<Seq<char>>, missed: int)
    requires
        open_after(inp, inp.len() as int) is Some,
    ensures
        balanced(unequal_brac_spec(inp, missed).0),
        unequal_brac_spec(inp, missed).0.take(inp.len() as int) == inp,
        unequal_brac_spec(inp, missed).1 == missed + open_after(inp, inp.len() as int)->0.len(),
{
    let n = inp.len() as int;
    lemma_scan_tracks_nesting(inp, missed, n);
    lemma_scan_shape(inp, missed, n);
    let st = scan_upto(inp, missed, n);
    let ks = open_after(inp, n)->0;
    lemma_close_all_shape(st.out, st.stack, st.missed);
    lemma_close_all_balances(st.out, st.stack, ks, st.missed);
    let r = close_all(st.out, st.stack, st.missed).0;
    assert(r.subrange(0, n) == inp);
    assert(r.take(n) =~= r.subrange(0, n));
}

fn open_kind_of(t: &str) -> (r: i32)
    ensures
        r == open_kind(t@),
{
    let c = sole_char(t);
    if c == Some('(') {
        0
    } else if c == Some('{') {
        1
    } else if c == Some('[') {
        2
    } else {
        -1
    }
}

fn close_kind_of(t: &str) -> (r: i32)
    ensures
        r == close_kind(t@),
{
    let c = sole_char(t);
    if c == Some(')') {
        0
    } else if c == Some('}') {
        1
    } else if c == Some(']') {
        2
    } else {
        -1
    }
}

proof fn lemma_open_after_stays_none(inp: Seq<Seq<char>>, n: int, m: int)
    requires
        0 <= n <= m,
        open_after(inp, n) is None,
    ensures
        open_after(inp, m) is None,
    decreases m - n,
{
    if n < m {
        lemma_open_after_stays_none(inp, n, m - 1);
    }
}

/// Whether the brackets of the tokens are balanced (see `balanced`).
pub fn is_balanced(v: &Vec<String>) -> (r: bool)
    ensures
        r == balanced(v.deep_view()),
{
    let ghost inp = v.deep_view();
    let mut stack: Vec<i32> = Vec::new();
    let mut k: usize = 0;
    while k < v.len()
        invariant
            k <= v.len(),
            inp == v.deep_view(),
            open_after(inp, k as int) == Some(stack@.map_values(|x: i32| x as int)),
        decreases v.len() - k,
    {
        let ghost ks = stack@.map_values(|x: i32| x as int);
        assert(v[k as int]@ == inp[k as int]);
        let o = open_kind_of(v[k].as_str());
        let c = close_kind_of(v[k].as_str());
        if o >= 0 {
            stack.push(o);
            assert(stack@.map_values(|x: i32| x as int) =~= ks.push(o as int));
        } else if c >= 0 {
            if stack.len() > 0 && stack[stack.len() - 1] == c {
                stack.pop();
                assert(stack@.map_values(|x: i32| x as int) =~= ks.drop_last());
            } else {
                proof {
                    lemma_open_after_stays_none(inp, k as int + 1, inp.len() as int);
                }
                return false;
            }
        }
        k = k + 1;
    }
    let ghost ks = stack@.map_values(|x: i32| x as int);
    assert(open_after(inp, inp.len() as int) == Some(ks));
    assert(ks.len() == stack.len());
    if stack.len() == 0 {
        assert(ks =~= Seq::<int>::empty());
        true
    } else {
        assert(ks != Seq::<int>::empty());
        false
    }
}

proof fn lemma_scan_count_bounded(inp: Seq<Seq<char>>, missed: int, n: int)
    requires
        0 <= n <= inp.len(),
    ensures
        scan_upto(inp, missed, n).missed - missed + scan_upto(inp, missed, n).stack.len() <= n,
    decreases n,
{
    if n > 0 {
        lemma_scan_count_bounded(inp, missed, n - 1);
    }
}

/// A pass inserts at most one bracket per token: its count grows by at most the number
/// of tokens, so `missed_bracs + inp_vec.len() <= i32::MAX` is enough for `unequal_brac`.
pub proof fn law_pass_count_bounded(inp: Seq<Seq<char>>, missed: int)
    ensures
        unequal_brac_spec(inp, missed).1 <= missed + inp.len(),
{
    let n = inp.len() as int;
    lemma_scan_count_bounded(inp, missed, n);
    let st = scan_upto(inp, missed, n);
    lemma_close_all_shape(st.out, st.stack, st.missed);
}

/// Bracket completion pass after pass, at most `k` passes, until a pass leaves the tokens
/// unchanged: the tokens, the count, and whether such a pass came. `None` once a count
/// passes `i32::MAX`.
pub open spec fn complete_upto(t: Seq<Seq<char>>, m: int, k: nat) -> Option<(Seq<Seq<char>>, int, bool)>
    decreases k,
{
    if k == 0 {
        Some((t, m, false))
    } else {
        let r = unequal_brac_spec(t, m);
        if r.1 > i32::MAX {
            None
        } else if r.0 == t {
            Some((r.0, r.1, true))
        } else {
            complete_upto(r.0, r.1, (k - 1) as nat)
        }
    }
}

/// Whether the two token lists are equal.
fn same_tokens(a: &Vec<String>, b: &Vec<String>) -> (r: bool)
    ensures
        r == (a.deep_view() == b.deep_view()),
{
    if a.len() != b.len() {
        assert(a.deep_view().len() != b.deep_view().len());
        return false;
    }
    let mut k: usize = 0;
    while k < a.len()
        invariant
            k <= a.len(),
            a.len() == b.len(),
            forall|j: int| 0 <= j < k ==> a.deep_view()[j] == b.deep_view()[j],
        decreases a.len() - k,
    {
        assert(a[k as int]@ == a.deep_view()[k as int]);
        assert(b[k as int]@ == b.deep_view()[k as int]);
        if !crate::text::same_text(a[k].as_str(), b[k].as_str()) {
            return false;
        }
        k = k + 1;
    }
    assert(a.deep_view() =~= b.deep_view());
    true
}

/// Repeats bracket-completion passes, at most `max_passes` of them, until a pass leaves
/// the tokens unchanged (see `complete_upto`); the flag says whether that happened, and
/// then the brackets are balanced. `None` once the count would pass `i32::MAX`.
pub fn complete_brackets(inp_vec: Vec<String>, missed_bracs: i32, max_passes: usize) -> (r: Option<(Vec<String>, i32, bool)>)
    ensures
        r is None <==> complete_upto(inp_vec.deep_view(), missed_bracs as int, max_passes as nat) is None,
        r matches Some(x) ==> complete_upto(inp_vec.deep_view(), missed_bracs as int, max_passes as nat)
            == Some((x.0.deep_view(), x.1 as int, x.2)),
        r matches Some(x) ==> (x.2 ==> balanced(x.0.deep_view())),
{
    let ghost goal = complete_upto(inp_vec.deep_view(), missed_bracs as int, max_passes as nat);
    let mut cur = inp_vec.clone();
    assert(cur.deep_view() =~= inp_vec.deep_view()) by {
        assert forall|k: int| 0 <= k < cur.len() implies #[trigger] cur.deep_view()[k] == inp_vec.deep_view()[k] by {
            assert(cur@[k] == inp_vec@[k]);
        }
    }
    let mut m = missed_bracs;
    let mut left = max_passes;
    while left > 0
        invariant
            goal == complete_upto(inp_vec.deep_view(), missed_bracs as int, max_passes as nat),
            goal == complete_upto(cur.deep_view(), m as int, left as nat),
        decreases left,
    {
        let prev = crate::functions::clone_tokens(&cur);
        let ghost t = cur.deep_view();
        let ghost mm = m as int;
        assert(complete_upto(t, mm, left as nat) == {
            let r = unequal_brac_spec(t, mm);
            if r.1 > i32::MAX {
                None
            } else if r.0 == t {
                Some((r.0, r.1, true))
            } else {
                complete_upto(r.0, r.1, (left - 1) as nat)
            }
        });
        match unequal_brac_checked(cur, m) {
            None => {
                return None;
            },
            Some(pass) => {
                let (next, count) = pass;
                assert((next.deep_view(), count as int) == unequal_brac_spec(t, mm));
                assert(prev.deep_view() == t);
                if same_tokens(&prev, &next) {
                    proof {
                        law_pass_counts_insertions(t, m as int);
                        law_pass_is_identity_iff_balanced(t, m as int);
                    }
                    return Some((next, count, true));
                }
                cur = next;
                m = count;
            },
        }
        left = left - 1;
    }
    Some((cur, m, false))
}

/// The opening partners of the closing brackets of `s`, the partner of the last closing
/// bracket first.
pub open spec fn front_openers(s: Seq<Seq<char>>) -> Seq<Seq<char>>
    decreases s.len(),
{
    if s.len() == 0 {
        Seq::empty()
    } else if is_close(s.last()) {
        seq![opening_for(s.last())] + front_openers(s.drop_last())
    } else {
        front_openers(s.drop_last())
    }
}

proof fn lemma_scan_without_openers(inp: Seq<Seq<char>>, missed: int, n: int)
    requires
        0 <= n <= inp.len(),
        forall|k: int| 0 <= k < inp.len() ==> !is_open(#[trigger] inp[k]),
    ensures
        scan_upto(inp, missed, n).out == front_openers(inp.take(n)) + inp,
        scan_upto(inp, missed, n).stack.len() == 0,
        scan_upto(inp, missed, n).missed == missed + front_openers(inp.take(n)).len(),
    decreases n,
{
    if n == 0 {
        assert(inp.take(0) =~= Seq::<Seq<char>>::empty());
        assert(front_openers(inp.take(0)) + inp =~= inp);
    } else {
        lemma_scan_without_openers(inp, missed, n - 1);
        assert(inp.take(n).drop_last() =~= inp.take(n - 1));
        assert(inp.take(n).last() == inp[n - 1]);
        let st = scan_upto(inp, missed, n - 1);
        assert(!is_open(inp[n - 1]));
        if is_close(inp[n - 1]) {
            let f = front_openers(inp.take(n - 1));
            assert((f + inp).insert(0, opening_for(inp[n - 1])) =~= seq![opening_for(inp[n - 1])] + f + inp);
        }
    }
}

/// A closing bracket met while no bracket is open gets its opening partner at the very
/// front of the list. So when the tokens hold no opening bracket, a pass puts the
/// partners of all the closing brackets in front of the unchanged tokens, the partner of
/// the last closing bracket first, and counts one for each.
pub proof fn law_pass_opens_missing_at_front(inp: Seq<Seq<char>>, missed: int)
    requires
        forall|k: int| 0 <= k < inp.len() ==> !is_open(#[trigger] inp[k]),
    ensures
        unequal_brac_spec(inp, missed).0 == front_openers(inp) + inp,
        unequal_brac_spec(inp, missed).1 == missed + front_openers(inp).len(),
        forall|k: int| 0 <= k < front_openers(inp).len() ==> is_open(#[trigger] front_openers(inp)[k]),
{
    let n = inp.len() as int;
    lemma_scan_without_openers(inp, missed, n);
    assert(inp.take(n) =~= inp);
    lemma_front_openers_open(inp);
}

proof fn lemma_front_openers_open(s: Seq<Seq<char>>)
    ensures
        forall|k: int| 0 <= k < front_openers(s).len() ==> is_open(#[trigger] front_openers(s)[k]),
    decreases s.len(),
{
    if s.len() > 0 {
        lemma_front_openers_open(s.drop_last());
        if is_close(s.last()) {
            let t = s.last();
            assert(is_open(opening_for(t))) by {
                let o = opening_for(t);
                assert(o == open_of_kind(close_kind(t)));
                assert(sole(o) == Some(o[0]));
            }
            let f = front_openers(s);
            assert(f == seq![opening_for(t)] + front_openers(s.drop_last()));
            assert forall|k: int| 0 <= k < f.len() implies is_open(#[trigger] f[k]) by {
                if k > 0 {
                    assert(f[k] == front_openers(s.drop_last())[k - 1]);
                } else {
                    assert(f[0] == opening_for(t));
                }
            }
        } else {
            assert(front_openers(s) == front_openers(s.drop_last()));
        }
    }
}

proof fn lemma_front_openers_cons(x: Seq<char>, t: Seq<Seq<char>>)
    ensures
        front_openers(seq![x] + t) == front_openers(t) + (if is_close(x) {
            seq![opening_for(x)]
        } else {
            Seq::<Seq<char>>::empty()
        }),
    decreases t.len(),
{
    let w = seq![x] + t;
    if t.len() == 0 {
        assert(w =~= seq![x]);
        assert(w.drop_last() =~= Seq::<Seq<char>>::empty());
        assert(front_openers(Seq::<Seq<char>>::empty()) == Seq::<Seq<char>>::empty());
        if is_close(x) {
            assert(seq![opening_for(x)] + Seq::<Seq<char>>::empty() =~= Seq::<Seq<char>>::empty() + seq![opening_for(x)]);
        } else {
            assert(Seq::<Seq<char>>::empty() + Seq::<Seq<char>>::empty() =~= Seq::<Seq<char>>::empty());
        }
    } else {
        lemma_front_openers_cons(x, t.drop_last());
        assert(w.drop_last() =~= seq![x] + t.drop_last());
        assert(w.last() == t.last());
        let tail = if is_close(x) { seq![opening_for(x)] } else { Seq::<Seq<char>>::empty() };
        if is_close(t.last()) {
            assert(seq![opening_for(t.last())] + (front_openers(t.drop_last()) + tail)
                =~= (seq![opening_for(t.last())] + front_openers(t.drop_last())) + tail);
        }
    }
}

proof fn lemma_open_after_append(a: Seq<Seq<char>>, b: Seq<Seq<char>>)
    ensures
        open_after(a + b, a.len() as int) == open_after(a, a.len() as int),
    decreases b.len(),
{
    if b.len() == 0 {
        assert(a + b =~= a);
    } else {
        lemma_open_after_append(a, b.drop_last());
        assert(a + b =~= (a + b.drop_last()).push(b.last()));
        lemma_open_after_push(a + b.drop_last(), b.last(), a.len() as int);
    }
}

proof fn lemma_open_after_openers(f: Seq<Seq<char>>, n: int)
    requires
        0 <= n <= f.len(),
        forall|k: int| 0 <= k < f.len() ==> is_open(#[trigger] f[k]),
    ensures
        open_after(f, n) == Some(f.take(n).map_values(|t: Seq<char>| open_kind(t))),
    decreases n,
{
    if n == 0 {
        assert(f.take(0).map_values(|t: Seq<char>| open_kind(t)) =~= Seq::<int>::empty());
    } else {
        lemma_open_after_openers(f, n - 1);
        assert(is_open(f[n - 1]));
        assert(f.take(n).map_values(|t: Seq<char>| open_kind(t))
            =~= f.take(n - 1).map_values(|t: Seq<char>| open_kind(t)).push(open_kind(f[n - 1])));
    }
}

proof fn lemma_opening_partner(t: Seq<char>)
    requires
        is_close(t),
    ensures
        is_open(opening_for(t)),
        open_kind(opening_for(t)) == close_kind(t),
{
    let o = opening_for(t);
    assert(o == open_of_kind(close_kind(t)));
    assert(sole(o) == Some(o[0]));
}

proof fn lemma_openers_then_tokens(f: Seq<Seq<char>>, inp: Seq<Seq<char>>, n: int)
    requires
        0 <= n <= inp.len(),
        f == front_openers(inp),
        forall|k: int| 0 <= k < inp.len() ==> !is_open(#[trigger] inp[k]),
        forall|k: int| 0 <= k < f.len() ==> is_open(#[trigger] f[k]),
    ensures
        open_after(f + inp, f.len() + n) == Some(front_openers(inp.skip(n)).map_values(|t: Seq<char>| open_kind(t))),
    decreases n,
{
    let w = f + inp;
    if n == 0 {
        lemma_open_after_append(f, inp);
        lemma_open_after_openers(f, f.len() as int);
        assert(f.take(f.len() as int) =~= f);
        assert(inp.skip(0) =~= inp);
    } else {
        lemma_openers_then_tokens(f, inp, n - 1);
        let t = inp[n - 1];
        assert(w[f.len() + n - 1] == t);
        assert(inp.skip(n - 1) =~= seq![t] + inp.skip(n));
        lemma_front_openers_cons(t, inp.skip(n));
        let rest = front_openers(inp.skip(n));
        let ks = rest.map_values(|u: Seq<char>| open_kind(u));
        assert(!is_open(t));
        if is_close(t) {
            lemma_opening_partner(t);
            assert((rest + seq![opening_for(t)]).map_values(|u: Seq<char>| open_kind(u)) =~= ks.push(close_kind(t)));
            assert(ks.push(close_kind(t)).drop_last() =~= ks);
        } else {
            assert(rest + Seq::<Seq<char>>::empty() =~= rest);
        }
    }
}

/// When the tokens hold no opening bracket, the pass that puts the partners of the
/// closing brackets in front (see `law_pass_opens_missing_at_front`) leaves them balanced.
pub proof fn law_pass_balances_missing_openers(inp: Seq<Seq<char>>, missed: int)
    requires
        forall|k: int| 0 <= k < inp.len() ==> !is_open(#[trigger] inp[k]),
    ensures
        balanced(unequal_brac_spec(inp, missed).0),
{
    law_pass_opens_missing_at_front(inp, missed);
    let f = front_openers(inp);
    lemma_openers_then_tokens(f, inp, inp.len() as int);
    assert(inp.skip(inp.len() as int) =~= Seq::<Seq<char>>::empty());
    assert(front_openers(Seq::<Seq<char>>::empty()) == Seq::<Seq<char>>::empty());
    assert(Seq::<Seq<char>>::empty().map_values(|t: Seq<char>| open_kind(t)) =~= Seq::<int>::empty());
}

proof fn lemma_scan_inside_pair(o: Seq<char>, mid: Seq<Seq<char>>, c: Seq<char>, missed: int, n: int)
    requires
        is_open(o),
        forall|k: int| 0 <= k < mid.len() ==> !is_open(#[trigger] mid[k]) && !is_close(mid[k]),
        1 <= n <= 1 + mid.len(),
    ensures
        scan_upto(seq![o] + mid + seq![c], missed, n) == (BracketScan {
            out: seq![o] + mid + seq![c],
            stack: seq![o],
            pos: seq![0int],
            missed,
        }),
    decreases n,
{
    let inp = seq![o] + mid + seq![c];
    if n == 1 {
        assert(inp[0] == o);
        assert(scan_upto(inp, missed, 0).stack == Seq::<Seq<char>>::empty());
        assert(Seq::<Seq<char>>::empty().push(o) =~= seq![o]);
        assert(Seq::<int>::empty().push(0) =~= seq![0int]);
    } else {
        lemma_scan_inside_pair(o, mid, c, missed, n - 1);
        assert(inp[n - 1] == mid[n - 2]);
    }
}

/// A closing bracket that does not match the open bracket before it gets a partner where
/// it keeps the nesting: for tokens `o mid c` with brackets only at the ends, when `c`
/// closes a kind that comes before the kind of `o`, its opening partner goes right after
/// `o` and `o` is closed at the end, which balances the tokens; when `c` closes a later
/// kind, `o` is closed just before `c`, and `c` is left for the next pass.
pub proof fn law_pass_mismatched_pair(o: Seq<char>, mid: Seq<Seq<char>>, c: Seq<char>, missed: int)
    requires
        is_open(o),
        is_close(c),
        forall|k: int| 0 <= k < mid.len() ==> !is_open(#[trigger] mid[k]) && !is_close(mid[k]),
    ensures
        open_kind(o) > close_kind(c) ==> unequal_brac_spec(seq![o] + mid + seq![c], missed)
            == (seq![o, opening_for(c)] + mid + seq![c, closing_for(o)], missed + 2),
        open_kind(o) > close_kind(c) ==> balanced(seq![o, opening_for(c)] + mid + seq![c, closing_for(o)]),
        open_kind(o) < close_kind(c) ==> unequal_brac_spec(seq![o] + mid + seq![c], missed)
            == (seq![o] + mid + seq![closing_for(o), c], missed + 1),
{
    let inp = seq![o] + mid + seq![c];
    let n = inp.len() as int;
    lemma_scan_inside_pair(o, mid, c, missed, n - 1);
    let st = scan_upto(inp, missed, n - 1);
    assert(inp[n - 1] == c);
    assert(st.stack.last() == o);
    assert(bracket_kind(o) == open_kind(o));
    assert(!is_open(c));
    assert(bracket_kind(c) == close_kind(c));
    if open_kind(o) > close_kind(c) {
        assert(compare_spec(o, c) == 1);
        let out1 = inp.insert(1, opening_for(c));
        assert(out1 =~= seq![o, opening_for(c)] + mid + seq![c]);
        let st2 = scan_upto(inp, missed, n);
        assert(st2.out == out1 && st2.stack == seq![o] && st2.missed == missed + 1);
        assert(seq![o].drop_last() =~= Seq::<Seq<char>>::empty());
        assert(seq![o].last() == o);
        assert(out1.push(closing_for(o)) =~= seq![o, opening_for(c)] + mid + seq![c, closing_for(o)]);
        assert(unequal_brac_spec(inp, missed) == close_all(out1, seq![o], missed + 1));
        assert(close_all(out1, seq![o], missed + 1)
            == close_all(out1.push(closing_for(o)), Seq::<Seq<char>>::empty(), missed + 2));
        assert(close_all(out1.push(closing_for(o)), Seq::<Seq<char>>::empty(), missed + 2)
            == (out1.push(closing_for(o)), missed + 2));
        let res = seq![o, opening_for(c)] + mid + seq![c, closing_for(o)];
        lemma_opening_partner(c);
        lemma_closing_partner(o);
        lemma_pair_balanced(o, opening_for(c), mid, c, closing_for(o));
    } else if open_kind(o) < close_kind(c) {
        assert(compare_spec(o, c) == -1);
        let out1 = inp.insert(n - 1, closing_for(o));
        assert(out1 =~= seq![o] + mid + seq![closing_for(o), c]);
        assert(seq![o].drop_last() =~= Seq::<Seq<char>>::empty());
    }
}

proof fn lemma_open_after_plain(s: Seq<Seq<char>>, from: int, to: int)
    requires
        0 <= from <= to <= s.len(),
        forall|k: int| from <= k < to ==> !is_open(#[trigger] s[k]) && !is_close(s[k]),
    ensures
        open_after(s, to) == open_after(s, from),
    decreases to - from,
{
    if to > from {
        lemma_open_after_plain(s, from, to - 1);
    }
}

proof fn lemma_pair_balanced(o: Seq<char>, oc: Seq<char>, mid: Seq<Seq<char>>, c: Seq<char>, co: Seq<char>)
    requires
        is_open(o),
        is_open(oc),
        is_close(c),
        is_close(co),
        !is_open(c),
        !is_open(co),
        open_kind(oc) == close_kind(c),
        close_kind(co) == open_kind(o),
        forall|k: int| 0 <= k < mid.len() ==> !is_open(#[trigger] mid[k]) && !is_close(mid[k]),
    ensures
        balanced(seq![o, oc] + mid + seq![c, co]),
{
    let s = seq![o, oc] + mid + seq![c, co];
    let m = mid.len() as int;
    assert(s[0] == o && s[1] == oc && s[2 + m] == c && s[3 + m] == co);
    assert(!is_close(o));
    assert(open_after(s, 1) == Some(seq![open_kind(o)])) by {
        assert(open_after(s, 0) == Some(Seq::<int>::empty()));
        assert(Seq::<int>::empty().push(open_kind(o)) =~= seq![open_kind(o)]);
    }
    assert(!is_close(oc));
    assert(open_after(s, 2) == Some(seq![open_kind(o), open_kind(oc)])) by {
        assert(seq![open_kind(o)].push(open_kind(oc)) =~= seq![open_kind(o), open_kind(oc)]);
    }
    assert forall|k: int| 2 <= k < 2 + m implies !is_open(#[trigger] s[k]) && !is_close(s[k]) by {
        assert(s[k] == mid[k - 2]);
    }
    lemma_open_after_plain(s, 2, 2 + m);
    assert(seq![open_kind(o), open_kind(oc)].drop_last() =~= seq![open_kind(o)]);
    assert(open_after(s, 3 + m) == Some(seq![open_kind(o)]));
    assert(seq![open_kind(o)].drop_last() =~= Seq::<int>::empty());
    assert(open_after(s, 4 + m) == Some(Seq::<int>::empty()));
}

} // verus!
