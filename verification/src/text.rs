//! Character-level text utilities with exact specifications over `Seq<char>`.

use vstd::prelude::*;

verus! {

/// `String::push`: appends one character at the end of the string.
#[verifier::external_body]
fn push_char(s: &mut String, c: char)
    ensures
        final(s)@ == old(s)@.push(c),
{
    s.push(c);
}

/// The characters of a string slice, in order.
pub fn to_chars(s: &str) -> (r: Vec<char>)
    ensures
        r@ == s@,
{
    let mut r: Vec<char> = Vec::new();
    for c in it: s.chars()
        invariant
            r@ == it.seq().take(it.index() as int),
    {
        r.push(c);
    }
    r
}

/// A string holding exactly the given characters.
pub fn from_chars(v: &[char]) -> (r: String)
    ensures
        r@ == v@,
{
    let mut r = String::new();
    let mut i: usize = 0;
    while i < v.len()
        invariant
            i <= v.len(),
            r@ == v@.take(i as int),
        decreases v.len() - i,
    {
        push_char(&mut r, v[i]);
        assert(v@.take(i as int + 1) == v@.take(i as int).push(v@[i as int]));
        i = i + 1;
    }
    assert(v@.take(v.len() as int) == v@);
    r
}


/// `pat` occurs in `s` starting at position `i`.
pub open spec fn occurs_at(s: Seq<char>, pat: Seq<char>, i: int) -> bool {
    0 <= i && i + pat.len() <= s.len() && s.subrange(i, i + pat.len()) == pat
}

/// `pat` occurs somewhere in `s` (the empty pattern occurs in every string).
pub open spec fn contains_spec(s: Seq<char>, pat: Seq<char>) -> bool {
    exists|i: int| #[trigger] occurs_at(s, pat, i)
}

/// Every non-overlapping occurrence of `from`, found from left to right, replaced by `to`.
/// An empty `from` matches before every character and at the end.
pub open spec fn replace_spec(s: Seq<char>, from: Seq<char>, to: Seq<char>) -> Seq<char>
    decreases s.len(),
{
    if from.len() == 0 {
        if s.len() == 0 {
            to
        } else {
            to + seq![s[0]] + replace_spec(s.skip(1), from, to)
        }
    } else if s.len() == 0 {
        s
    } else if from.len() <= s.len() && s.take(from.len() as int) == from {
        to + replace_spec(s.skip(from.len() as int), from, to)
    } else {
        seq![s[0]] + replace_spec(s.skip(1), from, to)
    }
}

/// Whether `pat` occurs in `s` at position `i`.
pub fn matches_at(s: &Vec<char>, pat: &Vec<char>, i: usize) -> (r: bool)
    requires
        i <= s.len(),
    ensures
        r == occurs_at(s@, pat@, i as int),
{
    if pat.len() > s.len() - i {
        return false;
    }
    let mut k: usize = 0;
    while k < pat.len()
        invariant
            i + pat.len() <= s.len(),
            k <= pat.len(),
            forall|j: int| 0 <= j < k ==> s@[i + j] == pat@[j],
        decreases pat.len() - k,
    {
        if s[i + k] != pat[k] {
            assert(s@.subrange(i as int, i + pat.len())[k as int] != pat@[k as int]);
            return false;
        }
        k = k + 1;
    }
    assert(s@.subrange(i as int, i + pat.len()) =~= pat@);
    true
}

/// Whether `pat` occurs anywhere in `s`.
pub fn contains(s: &str, pat: &str) -> (r: bool)
    ensures
        r == contains_spec(s@, pat@),
{
    let sv = to_chars(s);
    let pv = to_chars(pat);
    let mut i: usize = 0;
    loop
        invariant
            sv@ == s@,
            pv@ == pat@,
            i <= sv.len(),
            forall|j: int| 0 <= j < i ==> !occurs_at(s@, pat@, j),
        ensures
            forall|j: int| 0 <= j <= sv.len() ==> !occurs_at(s@, pat@, j),
        decreases sv.len() - i,
    {
        if matches_at(&sv, &pv, i) {
            return true;
        }
        if i == sv.len() {
            break;
        }
        i = i + 1;
    }
    assert forall|j: int| !#[trigger] occurs_at(s@, pat@, j) by {
        if 0 <= j <= sv.len() {
        }
    }
    false
}

proof fn lemma_skip_skip(s: Seq<char>, a: int, b: int)
    requires
        0 <= a,
        0 <= b,
        a + b <= s.len(),
    ensures
        s.skip(a).skip(b) == s.skip(a + b),
{
    assert(s.skip(a).skip(b) =~= s.skip(a + b));
}

/// The text `s` with every occurrence of `from` replaced by `to`, as `str::replace` does.
pub fn replace_all(s: &str, from: &str, to: &str) -> (r: String)
    ensures
        r@ == replace_spec(s@, from@, to@),
{
    let sv = to_chars(s);
    let fv = to_chars(from);
    let tv = to_chars(to);
    let mut out: Vec<char> = Vec::new();
    let mut i: usize = 0;
    assert(sv@.skip(0) == sv@);
    while i < sv.len()
        invariant
            sv@ == s@,
            fv@ == from@,
            tv@ == to@,
            i <= sv.len(),
            out@ + replace_spec(sv@.skip(i as int), fv@, tv@) == replace_spec(sv@, fv@, tv@),
        decreases sv.len() - i,
    {
        let ghost rest = sv@.skip(i as int);
        let ghost old_out = out@;
        if fv.len() == 0 {
            append_chars(&mut out, &tv);
            out.push(sv[i]);
            proof {
                lemma_skip_skip(sv@, i as int, 1);
                assert(rest[0] == sv@[i as int]);
                assert(replace_spec(rest, fv@, tv@) == tv@ + seq![rest[0]] + replace_spec(rest.skip(1), fv@, tv@));
                assert(out@ =~= old_out + tv@ + seq![rest[0]]);
            }
            i = i + 1;
        } else if matches_at(&sv, &fv, i) {
            append_chars(&mut out, &tv);
            proof {
                assert(rest.take(fv.len() as int) =~= sv@.subrange(i as int, i + fv.len()));
                lemma_skip_skip(sv@, i as int, fv.len() as int);
                assert(replace_spec(rest, fv@, tv@) == tv@ + replace_spec(rest.skip(fv.len() as int), fv@, tv@));
                assert(out@ =~= old_out + tv@);
            }
            i = i + fv.len();
        } else {
            out.push(sv[i]);
            proof {
                if fv.len() <= rest.len() {
                    assert(rest.take(fv.len() as int) =~= sv@.subrange(i as int, i + fv.len()));
                }
                lemma_skip_skip(sv@, i as int, 1);
                assert(rest[0] == sv@[i as int]);
                assert(replace_spec(rest, fv@, tv@) == seq![rest[0]] + replace_spec(rest.skip(1), fv@, tv@));
                assert(out@ =~= old_out + seq![rest[0]]);
            }
            i = i + 1;
        }
        proof {
            assert(out@ + replace_spec(sv@.skip(i as int), fv@, tv@) == replace_spec(sv@, fv@, tv@));
        }
    }
    if fv.len() == 0 {
        append_chars(&mut out, &tv);
    }
    assert(sv@.skip(i as int) =~= Seq::<char>::empty());
    from_chars(&out)
}

/// Appends all characters of `extra` to `out`.
pub fn append_chars(out: &mut Vec<char>, extra: &Vec<char>)
    ensures
        final(out)@ == old(out)@ + extra@,
{
    let mut k: usize = 0;
    while k < extra.len()
        invariant
            k <= extra.len(),
            out@ == old(out)@ + extra@.take(k as int),
        decreases extra.len() - k,
    {
        out.push(extra[k]);
        assert(extra@.take(k as int + 1) == extra@.take(k as int).push(extra@[k as int]));
        k = k + 1;
    }
    assert(extra@.take(extra.len() as int) == extra@);
}


/// Whether the two texts are equal.
pub fn same_text(a: &str, b: &str) -> (r: bool)
    ensures
        r == (a@ == b@),
{
    let av = to_chars(a);
    let bv = to_chars(b);
    if av.len() != bv.len() {
        return false;
    }
    let mut i: usize = 0;
    while i < av.len()
        invariant
            av@ == a@,
            bv@ == b@,
            av.len() == bv.len(),
            i <= av.len(),
            forall|j: int| 0 <= j < i ==> av@[j] == bv@[j],
        decreases av.len() - i,
    {
        if av[i] != bv[i] {
            assert(av@[i as int] != bv@[i as int]);
            return false;
        }
        i = i + 1;
    }
    assert(av@ =~= bv@);
    true
}

/// The concatenation of two texts.
pub fn concat(a: &str, b: &str) -> (r: String)
    ensures
        r@ == a@ + b@,
{
    let mut v = to_chars(a);
    let w = to_chars(b);
    append_chars(&mut v, &w);
    from_chars(v.as_slice())
}



/// A string of one character.
pub fn char_string(c: char) -> (r: String)
    ensures
        r@ == seq![c],
{
    let mut v: Vec<char> = Vec::new();
    v.push(c);
    assert(v@ =~= seq![c]);
    from_chars(v.as_slice())
}


/// The text without its first `k` characters.
pub fn skip_chars(s: &str, k: usize) -> (r: String)
    requires
        k <= s@.len(),
    ensures
        r@ == s@.skip(k as int),
{
    let v = to_chars(s);
    let mut out: Vec<char> = Vec::new();
    let mut i = k;
    while i < v.len()
        invariant
            k <= i <= v.len(),
            v@ == s@,
            out@ == s@.subrange(k as int, i as int),
        decreases v.len() - i,
    {
        out.push(v[i]);
        assert(s@.subrange(k as int, i + 1) =~= s@.subrange(k as int, i as int).push(v@[i as int]));
        i = i + 1;
    }
    assert(s@.subrange(k as int, v.len() as int) =~= s@.skip(k as int));
    from_chars(out.as_slice())
}


/// Whether the character has the Unicode `White_Space` property, the property that
/// `char::is_whitespace` tests: tab to carriage return, space, next line, no-break space,
/// ogham space mark, en quad to hair space, line and paragraph separator, narrow no-break
/// space, medium mathematical space and ideographic space.
pub open spec fn whitespace(c: char) -> bool {
    let n = c as u32;
    ||| 0x9 <= n <= 0xD
    ||| n == 0x20
    ||| n == 0x85
    ||| n == 0xA0
    ||| n == 0x1680
    ||| 0x2000 <= n <= 0x200A
    ||| n == 0x2028
    ||| n == 0x2029
    ||| n == 0x202F
    ||| n == 0x205F
    ||| n == 0x3000
}

/// Whether the character is whitespace (see `whitespace`).
pub fn is_whitespace(c: char) -> (r: bool)
    ensures
        r == whitespace(c),
{
    let n = c as u32;
    (0x9 <= n && n <= 0xD) || n == 0x20 || n == 0x85 || n == 0xA0 || n == 0x1680
        || (0x2000 <= n && n <= 0x200A) || n == 0x2028 || n == 0x2029 || n == 0x202F || n == 0x205F
        || n == 0x3000
}

/// `s` without its leading whitespace.
pub open spec fn trim_start_spec(s: Seq<char>) -> Seq<char>
    decreases s.len(),
{
    if s.len() > 0 && whitespace(s[0]) {
        trim_start_spec(s.skip(1))
    } else {
        s
    }
}

/// `s` without its trailing whitespace.
pub open spec fn trim_end_spec(s: Seq<char>) -> Seq<char>
    decreases s.len(),
{
    if s.len() > 0 && whitespace(s.last()) {
        trim_end_spec(s.drop_last())
    } else {
        s
    }
}

/// `s` without leading and trailing whitespace, as `str::trim` gives it.
pub open spec fn trim_spec(s: Seq<char>) -> Seq<char> {
    trim_end_spec(trim_start_spec(s))
}

/// The text without leading and trailing whitespace.
pub fn trim(s: &str) -> (r: String)
    ensures
        r@ == trim_spec(s@),
{
    let v = to_chars(s);
    let mut a: usize = 0;
    assert(v@.skip(0) =~= v@);
    while a < v.len() && is_whitespace(v[a])
        invariant
            a <= v.len(),
            v@ == s@,
            trim_start_spec(v@) == trim_start_spec(v@.skip(a as int)),
        decreases v.len() - a,
    {
        assert(v@.skip(a as int).skip(1) =~= v@.skip(a + 1));
        assert(v@.skip(a as int)[0] == v@[a as int]);
        a = a + 1;
    }
    proof {
        if a < v.len() {
            assert(v@.skip(a as int)[0] == v@[a as int]);
        }
    }
    let mut b: usize = v.len();
    assert(v@.skip(a as int) =~= v@.subrange(a as int, b as int));
    while b > a && is_whitespace(v[b - 1])
        invariant
            a <= b <= v.len(),
            v@ == s@,
            trim_spec(v@) == trim_end_spec(v@.subrange(a as int, b as int)),
        decreases b - a,
    {
        assert(v@.subrange(a as int, b as int).drop_last() =~= v@.subrange(a as int, b - 1));
        assert(v@.subrange(a as int, b as int).last() == v@[b - 1]);
        b = b - 1;
    }
    proof {
        if b > a {
            assert(v@.subrange(a as int, b as int).last() == v@[b - 1]);
        }
    }
    let mut out: Vec<char> = Vec::new();
    let mut i = a;
    while i < b
        invariant
            a <= i <= b <= v.len(),
            out@ == v@.subrange(a as int, i as int),
        decreases b - i,
    {
        out.push(v[i]);
        assert(v@.subrange(a as int, i + 1) =~= v@.subrange(a as int, i as int).push(v@[i as int]));
        i = i + 1;
    }
    from_chars(out.as_slice())
}

/// How many times the character occurs in the text.
pub open spec fn count_of(s: Seq<char>, c: char) -> nat
    decreases s.len(),
{
    if s.len() == 0 {
        0
    } else {
        (if s[0] == c { 1nat } else { 0nat }) + count_of(s.skip(1), c)
    }
}

/// Counting over two texts put together adds up.
pub proof fn lemma_count_concat(a: Seq<char>, b: Seq<char>, c: char)
    ensures
        count_of(a + b, c) == count_of(a, c) + count_of(b, c),
    decreases a.len(),
{
    if a.len() > 0 {
        lemma_count_concat(a.skip(1), b, c);
        assert((a + b).skip(1) =~= a.skip(1) + b);
        assert((a + b)[0] == a[0]);
    } else {
        assert(a + b =~= b);
    }
}

/// A text of one character holds `c` once when that character is `c`.
pub proof fn lemma_count_single(x: char, c: char)
    ensures
        count_of(seq![x], c) == (if x == c { 1nat } else { 0nat }),
{
    assert(seq![x].skip(1) =~= Seq::<char>::empty());
    assert(count_of(Seq::<char>::empty(), c) == 0);
}

/// Replacing a non-empty text by one with as many `c` keeps the number of `c`.
pub proof fn lemma_count_replace(s: Seq<char>, from: Seq<char>, to: Seq<char>, c: char)
    requires
        from.len() > 0,
        count_of(from, c) == count_of(to, c),
    ensures
        count_of(replace_spec(s, from, to), c) == count_of(s, c),
    decreases s.len(),
{
    if s.len() == 0 {
    } else if from.len() <= s.len() && s.take(from.len() as int) == from {
        let k = from.len() as int;
        lemma_count_replace(s.skip(k), from, to, c);
        lemma_count_concat(to, replace_spec(s.skip(k), from, to), c);
        lemma_count_concat(s.take(k), s.skip(k), c);
        assert(s.take(k) + s.skip(k) =~= s);
    } else {
        lemma_count_replace(s.skip(1), from, to, c);
        lemma_count_concat(seq![s[0]], replace_spec(s.skip(1), from, to), c);
        lemma_count_single(s[0], c);
    }
}

/// Taking off the last character takes off its count.
pub proof fn lemma_count_drop_last(s: Seq<char>, c: char)
    requires
        s.len() > 0,
    ensures
        count_of(s, c) == count_of(s.drop_last(), c) + (if s.last() == c { 1nat } else { 0nat }),
{
    lemma_count_concat(s.drop_last(), seq![s.last()], c);
    assert(s.drop_last() + seq![s.last()] =~= s);
    lemma_count_single(s.last(), c);
}

/// Trimming whitespace keeps the number of any character that is not whitespace.
pub proof fn lemma_count_trim(s: Seq<char>, c: char)
    requires
        !whitespace(c),
    ensures
        count_of(trim_spec(s), c) == count_of(s, c),
{
    lemma_count_trim_start(s, c);
    lemma_count_trim_end(trim_start_spec(s), c);
}

proof fn lemma_count_trim_start(s: Seq<char>, c: char)
    requires
        !whitespace(c),
    ensures
        count_of(trim_start_spec(s), c) == count_of(s, c),
    decreases s.len(),
{
    if s.len() > 0 && whitespace(s[0]) {
        lemma_count_trim_start(s.skip(1), c);
    }
}

proof fn lemma_count_trim_end(s: Seq<char>, c: char)
    requires
        !whitespace(c),
    ensures
        count_of(trim_end_spec(s), c) == count_of(s, c),
    decreases s.len(),
{
    if s.len() > 0 && whitespace(s.last()) {
        lemma_count_trim_end(s.drop_last(), c);
        lemma_count_drop_last(s, c);
    }
}

} // verus!
