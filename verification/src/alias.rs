//! Input aliases: a tree of short names for numbers and operators.

use vstd::prelude::*;
use crate::text::{concat, replace_all, same_text, to_chars};
use crate::format::apply_rules;
use crate::display::dedup;

verus! {

/// A node of the alias tree: the alias of a child is its parent's alias followed by its own.
pub struct Alias {
    pub value: String,
    pub alias: String,
    pub nodes: Vec<Alias>,
}

/// The pairs (alias, value) that `Alias::unwrap` collects for `t`, given the pairs in
/// `storage` collected before. A leaf gives its own pair only. An inner node handles its
/// children in order: each child is unwrapped with everything collected so far, its pairs
/// are added with this node's alias in front, and then this node's own pair is added
/// again (when its alias is not empty).
pub open spec fn alias_unwrap(t: Alias, storage: Seq<(Seq<char>, Seq<char>)>) -> Seq<(Seq<char>, Seq<char>)>
    decreases t, t.nodes@.len() + 1,
{
    if t.nodes@.len() == 0 {
        seq![(t.alias@, t.value@)]
    } else {
        unwrap_children(t, storage, t.nodes@.len() as int)
    }
}

/// `Alias::unwrap` of `t` after its first `n` children.
pub open spec fn unwrap_children(t: Alias, storage: Seq<(Seq<char>, Seq<char>)>, n: int) -> Seq<(Seq<char>, Seq<char>)>
    decreases t, n,
{
    if n <= 0 || n > t.nodes@.len() {
        storage
    } else {
        let st = unwrap_children(t, storage, n - 1);
        let child = alias_unwrap(t.nodes@[n - 1], st);
        let st2 = st + child.map_values(|c: (Seq<char>, Seq<char>)| (t.alias@ + c.0, c.1));
        if t.alias@ != Seq::<char>::empty() {
            st2.push((t.alias@, t.value@))
        } else {
            st2
        }
    }
}

/// The texts of a list of pairs.
pub open spec fn pairs_view(v: Seq<(String, String)>) -> Seq<(Seq<char>, Seq<char>)> {
    v.map_values(|p: (String, String)| (p.0@, p.1@))
}

impl Alias {
    /// The pairs (alias, value) of the tree `temp_self` (see `alias_unwrap`).
    pub fn unwrap(&self, temp_self: &Alias, storage: Vec<(String, String)>) -> (r: Vec<(String, String)>)
        ensures
            pairs_view(r@) == alias_unwrap(*temp_self, pairs_view(storage@)),
        decreases *temp_self,
    {
        if temp_self.nodes.len() == 0 {
            let mut out: Vec<(String, String)> = Vec::new();
            out.push((temp_self.alias.clone(), temp_self.value.clone()));
            assert(pairs_view(out@) =~= seq![(temp_self.alias@, temp_self.value@)]);
            return out;
        }
        let mut storage = storage;
        let ghost st0 = pairs_view(storage@);
        let mut i: usize = 0;
        while i < temp_self.nodes.len()
            invariant
                i <= temp_self.nodes.len(),
                pairs_view(storage@) == unwrap_children(*temp_self, st0, i as int),
            decreases temp_self.nodes.len() - i,
        {
            let ghost st = pairs_view(storage@);
            let copy = clone_pairs(&storage);
            proof {
                assert(decreases_to!(*temp_self => temp_self.nodes@[i as int]));
            }
            let child = self.unwrap(&temp_self.nodes[i], copy);
            let mut k: usize = 0;
            let ghost mapped = pairs_view(child@).map_values(|c: (Seq<char>, Seq<char>)| (temp_self.alias@ + c.0, c.1));
            while k < child.len()
                invariant
                    k <= child.len(),
                    mapped == pairs_view(child@).map_values(|c: (Seq<char>, Seq<char>)| (temp_self.alias@ + c.0, c.1)),
                    pairs_view(storage@) == st + mapped.take(k as int),
                decreases child.len() - k,
            {
                let name = concat(temp_self.alias.as_str(), child[k].0.as_str());
                let ghost before = pairs_view(storage@);
                storage.push((name, child[k].1.clone()));
                assert(pairs_view(storage@) =~= before.push(mapped[k as int]));
                assert(mapped.take(k + 1) =~= mapped.take(k as int).push(mapped[k as int]));
                k = k + 1;
            }
            assert(mapped.take(child.len() as int) =~= mapped);
            assert(pairs_view(child@) == alias_unwrap(temp_self.nodes@[i as int], st));
            assert(unwrap_children(*temp_self, st0, i + 1) == {
                let st2 = st + mapped;
                if temp_self.alias@ != Seq::<char>::empty() {
                    st2.push((temp_self.alias@, temp_self.value@))
                } else {
                    st2
                }
            });
            if !same_text(temp_self.alias.as_str(), "") {
                proof {
                    reveal_strlit("");
                    assert(""@ =~= Seq::<char>::empty());
                }
                let ghost before = pairs_view(storage@);
                storage.push((temp_self.alias.clone(), temp_self.value.clone()));
                assert(pairs_view(storage@) =~= before.push((temp_self.alias@, temp_self.value@)));
            } else {
                proof {
                    reveal_strlit("");
                    assert(""@ =~= Seq::<char>::empty());
                    assert(temp_self.alias@ =~= Seq::<char>::empty());
                }
            }
            i = i + 1;
        }
        storage
    }
}

/// A copy of the pairs.
pub fn clone_pairs(v: &Vec<(String, String)>) -> (r: Vec<(String, String)>)
    ensures
        pairs_view(r@) == pairs_view(v@),
{
    let mut out: Vec<(String, String)> = Vec::new();
    let mut i: usize = 0;
    while i < v.len()
        invariant
            i <= v.len(),
            pairs_view(out@) == pairs_view(v@).take(i as int),
        decreases v.len() - i,
    {
        let ghost before = pairs_view(out@);
        out.push((v[i].0.clone(), v[i].1.clone()));
        assert(pairs_view(out@) =~= before.push(pairs_view(v@)[i as int]));
        assert(pairs_view(v@).take(i + 1) =~= pairs_view(v@).take(i as int).push(pairs_view(v@)[i as int]));
        i = i + 1;
    }
    assert(pairs_view(v@).take(v.len() as int) =~= pairs_view(v@));
    out
}


/// `a` comes strictly before `b` in dictionary order of characters, as `String`s compare.
pub open spec fn text_lt(a: Seq<char>, b: Seq<char>) -> bool
    decreases a.len(),
{
    if b.len() == 0 {
        false
    } else if a.len() == 0 {
        true
    } else if a[0] != b[0] {
        (a[0] as int) < (b[0] as int)
    } else {
        text_lt(a.skip(1), b.skip(1))
    }
}

/// `x` put into `s` after every pair whose alias does not come after its own.
pub open spec fn insert_by_alias(s: Seq<(Seq<char>, Seq<char>)>, x: (Seq<char>, Seq<char>)) -> Seq<(Seq<char>, Seq<char>)>
    decreases s.len(),
{
    if s.len() == 0 || !text_lt(x.0, s.last().0) {
        s.push(x)
    } else {
        insert_by_alias(s.drop_last(), x).push(s.last())
    }
}

/// The pairs in dictionary order of their aliases, pairs with equal aliases in their
/// given order (a stable sort).
pub open spec fn sort_by_alias(s: Seq<(Seq<char>, Seq<char>)>) -> Seq<(Seq<char>, Seq<char>)>
    decreases s.len(),
{
    if s.len() == 0 {
        s
    } else {
        insert_by_alias(sort_by_alias(s.drop_last()), s.last())
    }
}

/// The alias table: all pairs of the tree, sorted by alias, consecutive repeats dropped.
pub open spec fn alias_table_spec(root: Alias) -> Seq<(Seq<char>, Seq<char>)> {
    dedup(sort_by_alias(alias_unwrap(root, seq![])))
}

/// Whether `a` comes strictly before `b` in dictionary order.
pub fn text_less(a: &str, b: &str) -> (r: bool)
    ensures
        r == text_lt(a@, b@),
{
    let av = to_chars(a);
    let bv = to_chars(b);
    let mut i: usize = 0;
    assert(av@.skip(0) =~= av@);
    assert(bv@.skip(0) =~= bv@);
    while i < av.len() && i < bv.len() && av[i] == bv[i]
        invariant
            i <= av.len(),
            i <= bv.len(),
            av@ == a@,
            bv@ == b@,
            text_lt(a@, b@) == text_lt(av@.skip(i as int), bv@.skip(i as int)),
        decreases av.len() - i,
    {
        assert(av@.skip(i as int).skip(1) =~= av@.skip(i + 1));
        assert(bv@.skip(i as int).skip(1) =~= bv@.skip(i + 1));
        i = i + 1;
    }
    if i == bv.len() {
        return false;
    }
    if i == av.len() {
        return true;
    }
    assert(av@.skip(i as int)[0] == av@[i as int]);
    assert(bv@.skip(i as int)[0] == bv@[i as int]);
    av[i] < bv[i]
}

proof fn lemma_insert_tail(s: Seq<(Seq<char>, Seq<char>)>, x: (Seq<char>, Seq<char>), j: int)
    requires
        0 <= j <= s.len(),
        forall|k: int| j <= k < s.len() ==> text_lt(x.0, #[trigger] s[k].0),
    ensures
        insert_by_alias(s, x) == insert_by_alias(s.take(j), x) + s.skip(j),
    decreases s.len() - j,
{
    if j < s.len() {
        lemma_insert_tail(s.drop_last(), x, j);
        assert(s.drop_last().take(j) =~= s.take(j));
        assert(s.drop_last().skip(j).push(s.last()) =~= s.skip(j));
    } else {
        assert(s.take(j) =~= s);
        assert(s.skip(j) =~= Seq::<(Seq<char>, Seq<char>)>::empty());
        assert(insert_by_alias(s, x) + Seq::<(Seq<char>, Seq<char>)>::empty() =~= insert_by_alias(s, x));
    }
}

/// The alias table of the tree: its pairs (see `alias_unwrap`) sorted by alias, stably,
/// without consecutive repeats.
pub fn alias_table(root: &Alias) -> (r: Vec<(String, String)>)
    ensures
        pairs_view(r@) == alias_table_spec(*root),
{
    let empty: Vec<(String, String)> = Vec::new();
    assert(pairs_view(empty@) =~= Seq::<(Seq<char>, Seq<char>)>::empty());
    let pairs = root.unwrap(root, empty);
    let ghost all = pairs_view(pairs@);
    let mut sorted: Vec<(String, String)> = Vec::new();
    let mut i: usize = 0;
    assert(all.take(0) =~= Seq::<(Seq<char>, Seq<char>)>::empty());
    while i < pairs.len()
        invariant
            i <= pairs.len(),
            all == pairs_view(pairs@),
            pairs_view(sorted@) == sort_by_alias(all.take(i as int)),
        decreases pairs.len() - i,
    {
        let x = (pairs[i].0.clone(), pairs[i].1.clone());
        let ghost xv = (x.0@, x.1@);
        assert(xv == all[i as int]);
        let ghost sv = pairs_view(sorted@);
        let mut j: usize = sorted.len();
        while j > 0 && text_less(x.0.as_str(), sorted[j - 1].0.as_str())
            invariant
                j <= sorted.len(),
                sv == pairs_view(sorted@),
                xv == (x.0@, x.1@),
                forall|k: int| j <= k < sv.len() ==> text_lt(xv.0, #[trigger] sv[k].0),
            decreases j,
        {
            assert(sv[j - 1].0 == sorted@[j - 1].0@);
            j = j - 1;
        }
        proof {
            lemma_insert_tail(sv, xv, j as int);
            if j > 0 {
                assert(sv.take(j as int).last() == sv[j - 1]);
                assert(sv.take(j as int).drop_last() =~= sv.take(j - 1));
            }
            assert(insert_by_alias(sv.take(j as int), xv) == sv.take(j as int).push(xv));
            assert(all.take(i + 1).drop_last() =~= all.take(i as int));
        }
        sorted.insert(j, x);
        assert(pairs_view(sorted@) =~= sv.take(j as int).push(xv) + sv.skip(j as int));
        i = i + 1;
    }
    assert(all.take(pairs.len() as int) =~= all);
    let ghost sv = pairs_view(sorted@);
    let mut out: Vec<(String, String)> = Vec::new();
    let mut k: usize = 0;
    assert(sv.take(0) =~= Seq::<(Seq<char>, Seq<char>)>::empty());
    while k < sorted.len()
        invariant
            k <= sorted.len(),
            sv == pairs_view(sorted@),
            pairs_view(out@) == dedup(sv.take(k as int)),
            k > 0 ==> out.len() > 0 && pairs_view(out@).last() == sv[k - 1],
        decreases sorted.len() - k,
    {
        proof {
            assert(sv.take(k + 1).drop_last() =~= sv.take(k as int));
        }
        let mut repeat = false;
        if k > 0 {
            let n = out.len();
            assert(pairs_view(out@)[n - 1] == (out@[n - 1].0@, out@[n - 1].1@));
            repeat = same_text(out[n - 1].0.as_str(), sorted[k].0.as_str())
                && same_text(out[n - 1].1.as_str(), sorted[k].1.as_str());
        }
        if !repeat {
            let ghost before = pairs_view(out@);
            out.push((sorted[k].0.clone(), sorted[k].1.clone()));
            assert(pairs_view(out@) =~= before.push(sv[k as int]));
        }
        k = k + 1;
    }
    assert(sv.take(sorted.len() as int) =~= sv);
    out
}

/// `x` put into `s` after every pair whose value does not come after its own.
pub open spec fn insert_by_value(s: Seq<(Seq<char>, Seq<char>)>, x: (Seq<char>, Seq<char>)) -> Seq<(Seq<char>, Seq<char>)>
    decreases s.len(),
{
    if s.len() == 0 || !text_lt(x.1, s.last().1) {
        s.push(x)
    } else {
        insert_by_value(s.drop_last(), x).push(s.last())
    }
}

/// The pairs in dictionary order of their values, pairs with equal values in their given
/// order (a stable sort).
pub open spec fn sort_by_value(s: Seq<(Seq<char>, Seq<char>)>) -> Seq<(Seq<char>, Seq<char>)>
    decreases s.len(),
{
    if s.len() == 0 {
        s
    } else {
        insert_by_value(sort_by_value(s.drop_last()), s.last())
    }
}

proof fn lemma_insert_value_tail(s: Seq<(Seq<char>, Seq<char>)>, x: (Seq<char>, Seq<char>), j: int)
    requires
        0 <= j <= s.len(),
        forall|k: int| j <= k < s.len() ==> text_lt(x.1, #[trigger] s[k].1),
    ensures
        insert_by_value(s, x) == insert_by_value(s.take(j), x) + s.skip(j),
    decreases s.len() - j,
{
    if j < s.len() {
        lemma_insert_value_tail(s.drop_last(), x, j);
        assert(s.drop_last().take(j) =~= s.take(j));
        assert(s.drop_last().skip(j).push(s.last()) =~= s.skip(j));
    } else {
        assert(s.take(j) =~= s);
        assert(s.skip(j) =~= Seq::<(Seq<char>, Seq<char>)>::empty());
        assert(insert_by_value(s, x) + Seq::<(Seq<char>, Seq<char>)>::empty() =~= insert_by_value(s, x));
    }
}

/// The alias table as it is listed to the user: in dictionary order of the values,
/// stably.
pub fn aliases_by_value(table: &Vec<(String, String)>) -> (r: Vec<(String, String)>)
    ensures
        pairs_view(r@) == sort_by_value(pairs_view(table@)),
{
    let ghost all = pairs_view(table@);
    let mut sorted: Vec<(String, String)> = Vec::new();
    let mut i: usize = 0;
    assert(all.take(0) =~= Seq::<(Seq<char>, Seq<char>)>::empty());
    while i < table.len()
        invariant
            i <= table.len(),
            all == pairs_view(table@),
            pairs_view(sorted@) == sort_by_value(all.take(i as int)),
        decreases table.len() - i,
    {
        let x = (table[i].0.clone(), table[i].1.clone());
        let ghost xv = (x.0@, x.1@);
        assert(xv == all[i as int]);
        let ghost sv = pairs_view(sorted@);
        let mut j: usize = sorted.len();
        while j > 0 && text_less(x.1.as_str(), sorted[j - 1].1.as_str())
            invariant
                j <= sorted.len(),
                sv == pairs_view(sorted@),
                xv == (x.0@, x.1@),
                forall|k: int| j <= k < sv.len() ==> text_lt(xv.1, #[trigger] sv[k].1),
            decreases j,
        {
            assert(sv[j - 1].1 == sorted@[j - 1].1@);
            j = j - 1;
        }
        proof {
            lemma_insert_value_tail(sv, xv, j as int);
            if j > 0 {
                assert(sv.take(j as int).last() == sv[j - 1]);
                assert(sv.take(j as int).drop_last() =~= sv.take(j - 1));
            }
            assert(insert_by_value(sv.take(j as int), xv) == sv.take(j as int).push(xv));
            assert(all.take(i + 1).drop_last() =~= all.take(i as int));
        }
        sorted.insert(j, x);
        assert(pairs_view(sorted@) =~= sv.take(j as int).push(xv) + sv.skip(j as int));
        i = i + 1;
    }
    assert(all.take(table.len() as int) =~= all);
    sorted
}

/// Every alias in the input replaced by its value, going through the table from its end
/// (so longer aliases that sort after their prefixes are replaced first).
pub fn apply_aliases(input: String, table: &Vec<(String, String)>) -> (r: String)
    ensures
        r@ == apply_rules(input@, pairs_view(table@).reverse()),
{
    let ghost rules = pairs_view(table@).reverse();
    let mut cur = input;
    let mut k: usize = table.len();
    assert(rules.take(0) =~= Seq::<(Seq<char>, Seq<char>)>::empty());
    while k > 0
        invariant
            k <= table.len(),
            rules == pairs_view(table@).reverse(),
            cur@ == apply_rules(input@, rules.take(table.len() - k)),
        decreases k,
    {
        let n = table.len() - k;
        assert(rules[n as int] == (table@[k - 1].0@, table@[k - 1].1@));
        assert(rules.take(n + 1).drop_last() =~= rules.take(n as int));
        cur = replace_all(cur.as_str(), table[k - 1].0.as_str(), table[k - 1].1.as_str());
        k = k - 1;
    }
    assert(rules.take(table.len() as int) =~= rules);
    cur
}

proof fn lemma_text_lt_asymmetric(a: Seq<char>, b: Seq<char>)
    ensures
        !(text_lt(a, b) && text_lt(b, a)),
    decreases a.len(),
{
    if a.len() > 0 && b.len() > 0 && a[0] == b[0] {
        lemma_text_lt_asymmetric(a.skip(1), b.skip(1));
    }
}

proof fn lemma_text_lt_transitive(a: Seq<char>, b: Seq<char>, c: Seq<char>)
    requires
        text_lt(a, b),
        text_lt(b, c),
    ensures
        text_lt(a, c),
    decreases a.len(),
{
    if a.len() > 0 && b.len() > 0 && c.len() > 0 && a[0] == b[0] && b[0] == c[0] {
        lemma_text_lt_transitive(a.skip(1), b.skip(1), c.skip(1));
    }
}

proof fn lemma_text_lt_total(a: Seq<char>, b: Seq<char>)
    ensures
        a == b || text_lt(a, b) || text_lt(b, a),
    decreases a.len(),
{
    if a.len() > 0 && b.len() > 0 && a[0] == b[0] {
        lemma_text_lt_total(a.skip(1), b.skip(1));
        if a.skip(1) == b.skip(1) {
            assert(a =~= seq![a[0]] + a.skip(1));
            assert(b =~= seq![b[0]] + b.skip(1));
        }
    } else if a.len() == 0 && b.len() == 0 {
        assert(a =~= b);
    }
}

/// `a` does not come after `b`.
pub open spec fn text_le(a: Seq<char>, b: Seq<char>) -> bool {
    !text_lt(b, a)
}

proof fn lemma_text_le_transitive(a: Seq<char>, b: Seq<char>, c: Seq<char>)
    requires
        text_le(a, b),
        text_le(b, c),
    ensures
        text_le(a, c),
{
    if text_lt(c, a) {
        lemma_text_lt_total(a, b);
        if text_lt(a, b) {
            lemma_text_lt_transitive(c, a, b);
        }
    }
}

/// A proper prefix comes strictly before the text it begins.
proof fn lemma_prefix_comes_first(a: Seq<char>, b: Seq<char>)
    requires
        a.len() < b.len(),
        b.take(a.len() as int) == a,
    ensures
        text_lt(a, b),
    decreases a.len(),
{
    if a.len() > 0 {
        assert(a[0] == b.take(a.len() as int)[0]);
        assert(b.skip(1).take(a.len() - 1) =~= a.skip(1)) by {
            assert forall|k: int| 0 <= k < a.len() - 1 implies b.skip(1).take(a.len() - 1)[k] == a.skip(1)[k] by {
                assert(b.take(a.len() as int)[k + 1] == b[k + 1]);
            }
        }
        lemma_prefix_comes_first(a.skip(1), b.skip(1));
    }
}

/// The pairs are in dictionary order of their aliases.
pub open spec fn sorted_by_alias(s: Seq<(Seq<char>, Seq<char>)>) -> bool {
    forall|i: int, j: int| 0 <= i < j < s.len() ==> text_le(#[trigger] s[i].0, #[trigger] s[j].0)
}

/// Every alias of the pairs is at most `b`.
pub open spec fn aliases_at_most(s: Seq<(Seq<char>, Seq<char>)>, b: Seq<char>) -> bool {
    forall|i: int| 0 <= i < s.len() ==> text_le(#[trigger] s[i].0, b)
}

proof fn lemma_insert_bounded(s: Seq<(Seq<char>, Seq<char>)>, x: (Seq<char>, Seq<char>), b: Seq<char>)
    requires
        aliases_at_most(s, b),
        text_le(x.0, b),
    ensures
        aliases_at_most(insert_by_alias(s, x), b),
    decreases s.len(),
{
    if !(s.len() == 0 || !text_lt(x.0, s.last().0)) {
        lemma_insert_bounded(s.drop_last(), x, b);
        let r = insert_by_alias(s.drop_last(), x);
        assert forall|i: int| 0 <= i < r.push(s.last()).len() implies text_le(#[trigger] r.push(s.last())[i].0, b) by {
            if i < r.len() {
                assert(r.push(s.last())[i] == r[i]);
            }
        }
    }
}

proof fn lemma_insert_sorted(s: Seq<(Seq<char>, Seq<char>)>, x: (Seq<char>, Seq<char>))
    requires
        sorted_by_alias(s),
    ensures
        sorted_by_alias(insert_by_alias(s, x)),
    decreases s.len(),
{
    if s.len() == 0 {
    } else if !text_lt(x.0, s.last().0) {
        let r = s.push(x);
        assert forall|i: int, j: int| 0 <= i < j < r.len() implies text_le(#[trigger] r[i].0, #[trigger] r[j].0) by {
            if j == s.len() {
                if i < s.len() - 1 {
                    lemma_text_le_transitive(s[i].0, s.last().0, x.0);
                }
            }
        }
    } else {
        let t = s.drop_last();
        assert(sorted_by_alias(t)) by {
            assert forall|i: int, j: int| 0 <= i < j < t.len() implies text_le(#[trigger] t[i].0, #[trigger] t[j].0) by {
                assert(t[i] == s[i] && t[j] == s[j]);
            }
        }
        lemma_insert_sorted(t, x);
        assert(aliases_at_most(t, s.last().0)) by {
            assert forall|i: int| 0 <= i < t.len() implies text_le(#[trigger] t[i].0, s.last().0) by {
                assert(t[i] == s[i]);
            }
        }
        lemma_text_lt_asymmetric(x.0, s.last().0);
        lemma_insert_bounded(t, x, s.last().0);
        let r = insert_by_alias(t, x);
        let q = r.push(s.last());
        assert forall|i: int, j: int| 0 <= i < j < q.len() implies text_le(#[trigger] q[i].0, #[trigger] q[j].0) by {
            if j < r.len() {
                assert(q[i] == r[i] && q[j] == r[j]);
            } else {
                assert(q[i] == r[i]);
            }
        }
    }
}

proof fn lemma_sort_sorted(s: Seq<(Seq<char>, Seq<char>)>)
    ensures
        sorted_by_alias(sort_by_alias(s)),
    decreases s.len(),
{
    if s.len() > 0 {
        lemma_sort_sorted(s.drop_last());
        lemma_insert_sorted(sort_by_alias(s.drop_last()), s.last());
    }
}

proof fn lemma_dedup_bounded(s: Seq<(Seq<char>, Seq<char>)>, b: Seq<char>)
    requires
        aliases_at_most(s, b),
    ensures
        aliases_at_most(dedup(s), b),
    decreases s.len(),
{
    if s.len() > 0 {
        let t = s.drop_last();
        assert(aliases_at_most(t, b)) by {
            assert forall|i: int| 0 <= i < t.len() implies text_le(#[trigger] t[i].0, b) by {
                assert(t[i] == s[i]);
            }
        }
        lemma_dedup_bounded(t, b);
        let r = dedup(t);
        assert forall|i: int| 0 <= i < r.push(s.last()).len() implies text_le(#[trigger] r.push(s.last())[i].0, b) by {
            if i < r.len() {
                assert(r.push(s.last())[i] == r[i]);
            }
        }
    }
}

proof fn lemma_dedup_sorted(s: Seq<(Seq<char>, Seq<char>)>)
    requires
        sorted_by_alias(s),
    ensures
        sorted_by_alias(dedup(s)),
    decreases s.len(),
{
    if s.len() > 0 {
        let t = s.drop_last();
        assert(sorted_by_alias(t)) by {
            assert forall|i: int, j: int| 0 <= i < j < t.len() implies text_le(#[trigger] t[i].0, #[trigger] t[j].0) by {
                assert(t[i] == s[i] && t[j] == s[j]);
            }
        }
        lemma_dedup_sorted(t);
        if !(s.len() >= 2 && s[s.len() - 1] == s[s.len() - 2]) {
            assert(aliases_at_most(t, s.last().0)) by {
                assert forall|i: int| 0 <= i < t.len() implies text_le(#[trigger] t[i].0, s.last().0) by {
                    assert(t[i] == s[i]);
                }
            }
            lemma_dedup_bounded(t, s.last().0);
            let r = dedup(t);
            let q = r.push(s.last());
            assert forall|i: int, j: int| 0 <= i < j < q.len() implies text_le(#[trigger] q[i].0, #[trigger] q[j].0) by {
                if j < r.len() {
                    assert(q[i] == r[i] && q[j] == r[j]);
                } else {
                    assert(q[i] == r[i]);
                }
            }
        }
    }
}

/// The alias table is in dictionary order of its aliases.
pub proof fn law_alias_table_sorted(root: Alias)
    ensures
        sorted_by_alias(alias_table_spec(root)),
{
    lemma_sort_sorted(alias_unwrap(root, seq![]));
    lemma_dedup_sorted(sort_by_alias(alias_unwrap(root, seq![])));
}

/// In the alias table an alias comes after every alias that is a proper prefix of it, so
/// `apply_aliases`, which goes through the table from its end, replaces every alias before
/// any of its prefixes.
pub proof fn law_prefixes_come_first(root: Alias, i: int, j: int)
    requires
        0 <= i < alias_table_spec(root).len(),
        0 <= j < alias_table_spec(root).len(),
        alias_table_spec(root)[i].0.len() < alias_table_spec(root)[j].0.len(),
        alias_table_spec(root)[j].0.take(alias_table_spec(root)[i].0.len() as int) == alias_table_spec(root)[i].0,
    ensures
        i < j,
{
    let t = alias_table_spec(root);
    law_alias_table_sorted(root);
    lemma_prefix_comes_first(t[i].0, t[j].0);
    if j < i {
        assert(text_le(t[j].0, t[i].0));
    }
}

} // verus!
