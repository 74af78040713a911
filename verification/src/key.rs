//! The order of texts and the key of a list of components.

use vstd::prelude::*;

use crate::text::{self, chars_of, join};

verus! {

/// `a` comes no later than `b`: texts are ordered by their first different characters, and a text
/// comes before its extensions.
pub open spec fn text_le(a: Seq<char>, b: Seq<char>) -> bool
    decreases a.len(),
{
    if a.len() == 0 {
        true
    } else if b.len() == 0 {
        false
    } else if a[0] != b[0] {
        (a[0] as int) < (b[0] as int)
    } else {
        text_le(a.skip(1), b.skip(1))
    }
}

/// The order of texts.
pub open spec fn text_order() -> spec_fn(Seq<char>, Seq<char>) -> bool {
    |a: Seq<char>, b: Seq<char>| text_le(a, b)
}

/// The key of a list of components: the components in order, with a space between each two.
pub open spec fn key_of(parts: Seq<Seq<char>>) -> Seq<char> {
    text::joined(parts.sort_by(text_order()), ' ')
}

proof fn lemma_text_le_reflexive(a: Seq<char>)
    ensures
        text_le(a, a),
    decreases a.len(),
{
    if a.len() > 0 {
        lemma_text_le_reflexive(a.skip(1));
    }
}

proof fn lemma_text_le_antisymmetric(a: Seq<char>, b: Seq<char>)
    requires
        text_le(a, b),
        text_le(b, a),
    ensures
        a == b,
    decreases a.len(),
{
    if a.len() > 0 && b.len() > 0 {
        lemma_text_le_antisymmetric(a.skip(1), b.skip(1));
        assert(a =~= seq![a[0]] + a.skip(1));
        assert(b =~= seq![b[0]] + b.skip(1));
    } else {
        assert(a =~= b);
    }
}

proof fn lemma_text_le_transitive(a: Seq<char>, b: Seq<char>, c: Seq<char>)
    requires
        text_le(a, b),
        text_le(b, c),
    ensures
        text_le(a, c),
    decreases a.len(),
{
    if a.len() > 0 && a[0] == b[0] && b[0] == c[0] {
        lemma_text_le_transitive(a.skip(1), b.skip(1), c.skip(1));
    }
}

proof fn lemma_text_le_total(a: Seq<char>, b: Seq<char>)
    ensures
        text_le(a, b) || text_le(b, a),
    decreases a.len(),
{
    if a.len() > 0 && b.len() > 0 && a[0] == b[0] {
        lemma_text_le_total(a.skip(1), b.skip(1));
    }
}

/// The order of texts is total.
pub proof fn lemma_text_order_total()
    ensures
        vstd::relations::total_ordering(text_order()),
{
    let r = text_order();
    assert forall|a: Seq<char>| #[trigger] r(a, a) by {
        lemma_text_le_reflexive(a);
    }
    assert forall|a: Seq<char>, b: Seq<char>| #[trigger] r(a, b) && #[trigger] r(b, a) implies a
        == b by {
        lemma_text_le_antisymmetric(a, b);
    }
    assert forall|a: Seq<char>, b: Seq<char>, c: Seq<char>| #[trigger]
        r(a, b) && #[trigger] r(b, c) implies r(a, c) by {
        lemma_text_le_transitive(a, b, c);
    }
    assert forall|a: Seq<char>, b: Seq<char>| #[trigger] r(a, b) || #[trigger] r(b, a) by {
        lemma_text_le_total(a, b);
    }
}

/// Whether `a` comes no later than `b`.
pub fn text_not_after(a: &str, b: &str) -> (r: bool)
    ensures
        r == text_le(a@, b@),
{
    let s = chars_of(a);
    let t = chars_of(b);
    let mut i: usize = 0;
    assert(a@.skip(0) =~= a@);
    assert(b@.skip(0) =~= b@);
    while i < s.len() && i < t.len() && s[i] == t[i]
        invariant
            s@ == a@,
            t@ == b@,
            i <= s@.len(),
            i <= t@.len(),
            text_le(a@, b@) == text_le(a@.skip(i as int), b@.skip(i as int)),
        decreases s.len() - i,
    {
        assert(a@.skip(i as int).skip(1) =~= a@.skip(i + 1));
        assert(b@.skip(i as int).skip(1) =~= b@.skip(i + 1));
        i = i + 1;
    }
    if i == s.len() {
        true
    } else if i == t.len() {
        false
    } else {
        s[i] < t[i]
    }
}

/// Inserting `x` behind the sorted texts that come no later keeps the list sorted.
proof fn lemma_insert_sorted(s: Seq<Seq<char>>, at: int, x: Seq<char>)
    requires
        vstd::relations::sorted_by(s, text_order()),
        0 <= at <= s.len(),
        at > 0 ==> text_le(s[at - 1], x),
        at < s.len() ==> text_le(x, s[at]),
    ensures
        vstd::relations::sorted_by(s.insert(at, x), text_order()),
{
    let r = text_order();
    let t = s.insert(at, x);
    assert forall|i: int, j: int| 0 <= i < j < t.len() implies #[trigger] r(t[i], t[j]) by {
        if i < at {
            assert(t[i] == s[i]);
            if j < at {
                assert(r(s[i], s[j]));
            } else {
                if i < at - 1 {
                    assert(r(s[i], s[at - 1]));
                    lemma_text_le_transitive(s[i], s[at - 1], x);
                }
                if j > at {
                    assert(r(s[i], s[j - 1]));
                }
            }
        } else if i == at {
            if j - 1 > at {
                assert(r(s[at], s[j - 1]));
                lemma_text_le_transitive(x, s[at], s[j - 1]);
            }
        } else {
            assert(r(s[i - 1], s[j - 1]));
        }
    }
}

/// The texts of `v` in order.
pub fn sort_texts(v: &Vec<String>) -> (r: Vec<String>)
    ensures
        r.deep_view() == v.deep_view().sort_by(text_order()),
{
    let mut out: Vec<String> = Vec::new();
    let ghost p = v.deep_view();
    assert(out.deep_view() =~= p.take(0));
    for i in 0..v.len()
        invariant
            p == v.deep_view(),
            vstd::relations::sorted_by(out.deep_view(), text_order()),
            out.deep_view().to_multiset() == p.take(i as int).to_multiset(),
    {
        let mut at: usize = out.len();
        while at > 0 && !text_not_after(out[at - 1].as_str(), v[i].as_str())
            invariant
                i < v@.len(),
                at <= out@.len(),
                at < out@.len() ==> text_le(v@[i as int]@, out.deep_view()[at as int]),
            decreases at,
        {
            proof {
                lemma_text_le_total(out@[at - 1]@, v@[i as int]@);
            }
            at = at - 1;
        }
        let ghost before = out.deep_view();
        let ghost x = v@[i as int]@;
        proof {
            lemma_insert_sorted(before, at as int, x);
            before.insert_ensures(at as int, x);
            vstd::seq_lib::to_multiset_insert(before, at as int, x);
            p.take(i as int).to_multiset_ensures();
            assert(p.take(i as int).push(x) =~= p.take(i + 1));
        }
        out.insert(at, v[i].clone());
        assert(out.deep_view() =~= before.insert(at as int, x));
    }
    proof {
        assert(p.take(v@.len() as int) =~= p);
        lemma_text_order_total();
        p.lemma_sort_by_ensures(text_order());
        vstd::seq_lib::lemma_sorted_unique(
            out.deep_view(),
            p.sort_by(text_order()),
            text_order(),
        );
    }
    out
}

/// The key of a list of components.
pub fn component_key(parts: &Vec<String>) -> (r: String)
    ensures
        r@ == key_of(parts.deep_view()),
{
    let sorted = sort_texts(parts);
    join(&sorted, ' ')
}

/// The key does not depend on the order in which the components are listed.
pub proof fn law_key_ignores_order(a: Seq<Seq<char>>, b: Seq<Seq<char>>)
    requires
        a.to_multiset() == b.to_multiset(),
    ensures
        key_of(a) == key_of(b),
{
    lemma_text_order_total();
    a.lemma_sort_by_ensures(text_order());
    b.lemma_sort_by_ensures(text_order());
    vstd::seq_lib::lemma_sorted_unique(
        a.sort_by(text_order()),
        b.sort_by(text_order()),
        text_order(),
    );
}

/// A space among joined texts leaves an empty field.
proof fn lemma_space_leaves_empty_field(p: Seq<Seq<char>>, k: int)
    requires
        0 <= k < p.len(),
        p[k] == seq![' '],
    ensures
        exists|m: int|
            0 <= m < text::fields(text::joined(p, ' '), ' ').len() && (#[trigger] text::fields(
                text::joined(p, ' '),
                ' ',
            )[m]).len() == 0,
    decreases p.len(),
{
    let rest = text::joined(p.skip(1), ' ');
    let all = text::fields(text::joined(p, ' '), ' ');
    let none = Seq::<char>::empty();
    if k == 0 {
        assert(p[0] =~= none + seq![' '] + none);
        text::lemma_fields_concat(none, none, ' ');
        text::lemma_fields_single(none, ' ');
        assert(text::fields(p[0], ' ')[0] == none);
    }
    if p.len() == 1 {
        assert(all[0].len() == 0);
    } else {
        text::lemma_fields_concat(p[0], rest, ' ');
        if k == 0 {
            assert(all[0].len() == 0);
        } else {
            lemma_space_leaves_empty_field(p.skip(1), k - 1);
            let m = choose|m: int|
                0 <= m < text::fields(rest, ' ').len() && (#[trigger] text::fields(rest, ' ')[m]).len()
                    == 0;
            let n = text::fields(p[0], ' ').len();
            assert(all[n + m] == text::fields(rest, ' ')[m]);
        }
    }
}

/// The key tells component lists apart: where the texts of `a` are words, and those of `b` are
/// single characters or hold no space, equal keys mean the same components, each as often.
pub proof fn law_key_identifies_components(a: Seq<Seq<char>>, b: Seq<Seq<char>>)
    requires
        a.len() > 0,
        forall|i: int| 0 <= i < a.len() ==> (#[trigger] a[i]).len() > 0 && text::solid(a[i]),
        forall|i: int| 0 <= i < b.len() ==> (#[trigger] b[i]).len() == 1 || !b[i].contains(' '),
        key_of(a) == key_of(b),
    ensures
        a.to_multiset() == b.to_multiset(),
{
    let order = text_order();
    let sa = a.sort_by(order);
    let sb = b.sort_by(order);
    lemma_text_order_total();
    a.lemma_sort_by_ensures(order);
    b.lemma_sort_by_ensures(order);
    a.to_multiset_ensures();
    b.to_multiset_ensures();
    sa.to_multiset_ensures();
    sb.to_multiset_ensures();
    assert forall|i: int| 0 <= i < sa.len() implies (#[trigger] sa[i]).len() > 0 && !sa[i].contains(
        ' ',
    ) by {
        assert(sa.contains(sa[i]));
        assert(a.contains(sa[i]));
    }
    text::lemma_fields_of_joined(sa, ' ');
    if sb.len() == 0 {
        assert(text::joined(sb, ' ') =~= Seq::<char>::empty());
        text::lemma_fields_single(text::joined(sb, ' '), ' ');
        assert(sa[0].len() == 0);
    } else if exists|k: int| 0 <= k < sb.len() && #[trigger] sb[k].contains(' ') {
        let k = choose|k: int| 0 <= k < sb.len() && #[trigger] sb[k].contains(' ');
        assert(sb.contains(sb[k]));
        assert(b.contains(sb[k]));
        assert(sb[k] =~= seq![' ']);
        lemma_space_leaves_empty_field(sb, k);
    } else {
        text::lemma_fields_of_joined(sb, ' ');
    }
}

} // verus!
