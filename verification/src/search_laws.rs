//! What a search finds, said of the components themselves.

use vstd::prelude::*;

use crate::dictionary::{self, Dictionary, EntryView};
use crate::distinct;
use crate::key;
use crate::laws;
use crate::rank;
use crate::search;
use crate::text_laws;
use crate::variants;

verus! {

/// `x` is listed for `part` in a map of variants.
pub open spec fn lists_variant(
    m: Map<Seq<char>, Vec<String>>,
    part: Seq<char>,
    x: Seq<char>,
) -> bool {
    m.contains_key(part) && exists|j: int| 0 <= j < m[part]@.len() && (#[trigger] m[part]@[j])@ == x
}

/// `x` may stand for the component `part`: it is that component, or listed as its variant.
pub open spec fn stands_for(d: &Dictionary, x: Seq<char>, part: Seq<char>) -> bool {
    ||| x == part
    ||| lists_variant(d.component_variants@, part, x)
    ||| lists_variant(d.char_variants@, part, x)
}

/// The entry at `i` has a component that may stand for `part`.
pub open spec fn has_one(d: &Dictionary, i: int, part: Seq<char>) -> bool {
    exists|j: int|
        0 <= j < d.list()[i].parts.len() && stands_for(d, #[trigger] d.list()[i].parts[j], part)
}

/// The entry at `i` has, for each of the given components, one that may stand for it.
pub open spec fn has_all(d: &Dictionary, i: int, parts: Seq<char>) -> bool {
    forall|k: int| 0 <= k < parts.len() ==> has_one(d, i, seq![#[trigger] parts[k]])
}

/// The components of the entry at `i` are, in some order, one for each of the given components,
/// which may stand for it.
pub open spec fn is_made_of(d: &Dictionary, i: int, parts: Seq<char>) -> bool {
    exists|sel: Seq<Seq<char>>|
        {
            &&& sel.len() == parts.len()
            &&& #[trigger] sel.to_multiset() == d.list()[i].parts.to_multiset()
            &&& forall|k: int|
                0 <= k < sel.len() ==> stands_for(d, #[trigger] sel[k], seq![parts[k]])
        }
}

proof fn lemma_lists_variant(m: Map<Seq<char>, Vec<String>>, part: Seq<char>, x: Seq<char>)
    ensures
        variants::listed(variants::lists(m), part).contains(x) <==> lists_variant(m, part, x),
{
    let all = variants::lists(m);
    assert(all.contains_key(part) <==> m.contains_key(part));
    if m.contains_key(part) {
        let l = m[part].deep_view();
        assert(all[part] == l);
        if l.contains(x) {
            let j = choose|j: int| 0 <= j < l.len() && l[j] == x;
            assert(m[part]@[j]@ == x);
        }
        if lists_variant(m, part, x) {
            let j = choose|j: int| 0 <= j < m[part]@.len() && (#[trigger] m[part]@[j])@ == x;
            assert(l[j] == x);
        }
    }
}

/// The candidates for a component are what may stand for it, each once, and the component itself
/// comes first. What is listed for it as a component comes before what is listed for it as a
/// character alone.
pub proof fn law_candidates_stand_for_the_component(d: &Dictionary, part: Seq<char>, x: Seq<char>)
    ensures
        d.candidates(part).contains(x) <==> stands_for(d, x, part),
        d.candidates(part).no_duplicates(),
        d.candidates(part).len() > 0,
        d.candidates(part)[0] == part,
        forall|i: int, j: int|
            0 <= i < j < d.candidates(part).len() && lists_variant(
                d.component_variants@,
                part,
                #[trigger] d.candidates(part)[j],
            ) && d.candidates(part)[j] != part ==> #[trigger] d.candidates(part)[i] == part
                || lists_variant(d.component_variants@, part, d.candidates(part)[i]),
{
    laws::lemma_candidates(d, part, x);
    lemma_lists_variant(d.component_variants@, part, x);
    lemma_lists_variant(d.char_variants@, part, x);
    let a = variants::listed(variants::lists(d.component_variants@), part);
    let b = variants::listed(variants::lists(d.char_variants@), part);
    let all = seq![part] + a + b;
    let n = all.len() as nat;
    let none = Seq::<Seq<char>>::empty();
    let c = d.candidates(part);
    all.lemma_remove_duplicates_properties(none);
    assert(c == distinct::first_distinct(all, n));
    distinct::law_first_distinct(all, n);
    assert(all[0] == part);
    assert forall|i: int, j: int|
        0 <= i < j < c.len() && lists_variant(d.component_variants@, part, #[trigger] c[j]) && c[j]
            != part implies #[trigger] c[i] == part || lists_variant(
        d.component_variants@,
        part,
        c[i],
    ) by {
        text_laws::law_distinct_texts_keep_their_order(all, n, i, j);
        let p = choose|p: int|
            0 <= p < all.len() && #[trigger] all[p] == c[i] && (forall|q: int|
                0 <= q < all.len() && #[trigger] all[q] == c[j] ==> p < q);
        lemma_lists_variant(d.component_variants@, part, c[j]);
        lemma_lists_variant(d.component_variants@, part, c[i]);
        let q = choose|q: int| 0 <= q < a.len() && a[q] == c[j];
        assert(all[q + 1] == c[j]);
        if p > 0 {
            assert(all[p] == a[p - 1]);
        }
    }
}

/// What may stand for each of the given components, one after the other.
pub proof fn law_choices_go_by_component(d: &Dictionary, parts: Seq<char>)
    ensures
        d.choices(parts).len() == parts.len(),
        forall|k: int|
            0 <= k < parts.len() ==> #[trigger] d.choices(parts)[k] == d.candidates(
                seq![parts[k]],
            ),
{
}

proof fn lemma_has_one(d: &Dictionary, i: int, part: Seq<char>)
    ensures
        has_one(d, i, part) <==> search::has_choice(d.list()[i].parts, d.candidates(part)),
{
    let p = d.list()[i].parts;
    let c = d.candidates(part);
    if has_one(d, i, part) {
        let j = choose|j: int|
            0 <= j < d.list()[i].parts.len() && stands_for(
                d,
                #[trigger] d.list()[i].parts[j],
                part,
            );
        law_candidates_stand_for_the_component(d, part, p[j]);
        let m = choose|m: int| 0 <= m < c.len() && c[m] == p[j];
        assert(p.contains(c[m]));
    }
    if search::has_choice(p, c) {
        let m = choose|m: int| 0 <= m < c.len() && p.contains(#[trigger] c[m]);
        assert(c.contains(c[m]));
        law_candidates_stand_for_the_component(d, part, c[m]);
        let j = choose|j: int| 0 <= j < p.len() && p[j] == c[m];
        assert(stands_for(d, d.list()[i].parts[j], part));
    }
}

proof fn lemma_has_all(d: &Dictionary, i: int, parts: Seq<char>)
    ensures
        has_all(d, i, parts) <==> search::has_choices(d.list()[i].parts, d.choices(parts)),
{
    let p = d.list()[i].parts;
    let c = d.choices(parts);
    assert forall|k: int| #![trigger c[k]] #![trigger parts[k]]
        0 <= k < parts.len() implies (has_one(d, i, seq![parts[k]]) <==> search::has_choice(
        p,
        c[k],
    )) by {
        lemma_has_one(d, i, seq![parts[k]]);
    }
    if search::has_choices(p, c) {
        assert forall|k: int| 0 <= k < parts.len() implies has_one(
            d,
            i,
            seq![#[trigger] parts[k]],
        ) by {
            assert(search::has_choice(p, c[k]));
        }
    }
    if has_all(d, i, parts) {
        assert forall|k: int| 0 <= k < c.len() implies search::has_choice(p, #[trigger] c[k]) by {
            assert(has_one(d, i, seq![parts[k]]));
        }
    }
}

/// Every entry that has a component, or a variant of it, for each of the given ones is found: its
/// character is among the exact matches, or among the partial ones in an entry with no more
/// components, unless there are a hundred of these and none has more components.
pub proof fn law_entries_with_all_components_are_found(
    d: &Dictionary,
    parts: Seq<char>,
    exact: Seq<usize>,
    partial: Seq<usize>,
    i: usize,
)
    requires
        d.wf(),
        d.search_result(parts, exact, partial),
        parts.len() > 0,
        i < d.list().len(),
        has_all(d, i as int, parts),
    ensures
        ({
            let es = d.list();
            let e = es[i as int];
            ||| exists|j: int| 0 <= j < exact.len() && es[#[trigger] exact[j] as int].word == e.word
            ||| exists|j: int|
                0 <= j < partial.len() && es[#[trigger] partial[j] as int].word == e.word
                    && es[partial[j] as int].parts.len() <= e.parts.len()
            ||| partial.len() == 100 && forall|j: int|
                0 <= j < partial.len() ==> es[#[trigger] partial[j] as int].parts.len()
                    <= e.parts.len()
        }),
{
    lemma_has_all(d, i as int, parts);
    let es = d.list();
    laws::lemma_partial_matches_are_complete(d, parts, exact, partial, i);
    assert forall|j: int| #![trigger partial[j]]
        laws::size(es, partial[j]) == es[partial[j] as int].parts.len() by {}
}

/// Nothing else is found: an exact match is made of one component for each of the given ones, a
/// partial match has one for each of them, and none of them has the character of an exact match.
/// There are at most a hundred of each, no character comes twice, and partial matches with fewer
/// components come first.
pub proof fn law_only_entries_with_all_components_are_found(
    d: &Dictionary,
    parts: Seq<char>,
    exact: Seq<usize>,
    partial: Seq<usize>,
)
    requires
        d.wf(),
        d.search_result(parts, exact, partial),
    ensures
        exact.len() <= 100,
        partial.len() <= 100,
        forall|j: int|
            0 <= j < exact.len() ==> (#[trigger] exact[j]) < d.list().len() && is_made_of(
                d,
                exact[j] as int,
                parts,
            ),
        forall|j: int|
            0 <= j < partial.len() ==> parts.len() > 0 && (#[trigger] partial[j]) < d.list().len()
                && has_all(d, partial[j] as int, parts),
        forall|i: int, j: int|
            0 <= i < j < exact.len() ==> d.list()[#[trigger] exact[i] as int].word
                != d.list()[#[trigger] exact[j] as int].word,
        forall|i: int, j: int|
            0 <= i < j < partial.len() ==> d.list()[#[trigger] partial[i] as int].word
                != d.list()[#[trigger] partial[j] as int].word,
        forall|i: int, j: int|
            0 <= i < j < partial.len() ==> d.list()[#[trigger] partial[i] as int].parts.len()
                <= d.list()[#[trigger] partial[j] as int].parts.len(),
        forall|i: int, j: int|
            0 <= i < exact.len() && 0 <= j < partial.len() ==> d.list()[#[trigger] exact[
                i
            ] as int].word != d.list()[#[trigger] partial[j] as int].word,
{
    let es = d.list();
    laws::law_exact_matches_fit(d, parts);
    laws::law_partial_matches_fit(d, parts, exact, partial);
    assert forall|j: int| 0 <= j < exact.len() implies (#[trigger] exact[j]) < es.len()
        && is_made_of(d, exact[j] as int, parts) by {
        let i = d.exact_matches(parts).0[j];
        let c = d.choices(parts);
        let sel = choose|sel: Seq<Seq<char>>| #[trigger]
            laws::selects(sel, c) && sel.to_multiset() == es[i as int].parts.to_multiset();
        assert forall|k: int| 0 <= k < sel.len() implies stands_for(
            d,
            #[trigger] sel[k],
            seq![parts[k]],
        ) by {
            assert(c[k].contains(sel[k]));
            law_candidates_stand_for_the_component(d, seq![parts[k]], sel[k]);
        }
    }
    assert forall|j: int| 0 <= j < partial.len() implies parts.len() > 0 && (#[trigger] partial[j])
        < es.len() && has_all(d, partial[j] as int, parts) by {
        lemma_has_all(d, partial[j] as int, parts);
    }
    assert forall|i: int, j: int| 0 <= i < j < partial.len() implies es[#[trigger] partial[
        i
    ] as int].parts.len() <= es[#[trigger] partial[j] as int].parts.len() by {
        assert(laws::size(es, partial[i]) <= laws::size(es, partial[j]));
    }
    assert forall|i: int, j: int| 0 <= i < exact.len() && 0 <= j < partial.len() implies es[
    #[trigger] exact[i] as int].word != es[#[trigger] partial[j] as int].word by {
        let w = es[partial[j] as int].word;
        assert(!laws::has_word(es, exact, w));
    }
}

/// Every entry that is made of one component for each of the given ones is found: its character is
/// among the exact matches, unless there are a hundred of these.
pub proof fn law_entries_made_of_the_components_are_found(
    d: &Dictionary,
    parts: Seq<char>,
    exact: Seq<usize>,
    partial: Seq<usize>,
    i: usize,
)
    requires
        d.wf(),
        d.search_result(parts, exact, partial),
        i < d.list().len(),
        is_made_of(d, i as int, parts),
    ensures
        exact.len() == 100 || exists|j: int|
            0 <= j < exact.len() && d.list()[#[trigger] exact[j] as int].word
                == d.list()[i as int].word,
{
    let e = d.list()[i as int];
    let c = d.choices(parts);
    let sel = choose|sel: Seq<Seq<char>>|
        {
            &&& sel.len() == parts.len()
            &&& #[trigger] sel.to_multiset() == e.parts.to_multiset()
            &&& forall|k: int|
                0 <= k < sel.len() ==> stands_for(d, #[trigger] sel[k], seq![parts[k]])
        };
    assert forall|k: int| 0 <= k < c.len() implies (#[trigger] c[k]).contains(sel[k]) by {
        assert(stands_for(d, sel[k], seq![parts[k]]));
        law_candidates_stand_for_the_component(d, seq![parts[k]], sel[k]);
    }
    laws::law_exact_matches_are_complete(d, parts, sel, i);
}

/// Some entry has a component that may stand for `part`.
pub open spec fn occurs(d: &Dictionary, part: Seq<char>) -> bool {
    exists|i: int| 0 <= i < d.list().len() && #[trigger] has_one(d, i, part)
}

/// Components are supported exactly if for each of them some entry has one that may stand for it.
pub proof fn law_supported_components_occur(d: &Dictionary, parts: Seq<char>)
    requires
        d.wf(),
    ensures
        d.supported(parts) <==> forall|k: int|
            0 <= k < parts.len() ==> occurs(d, seq![#[trigger] parts[k]]),
{
    let es = d.list();
    let c = d.choices(parts);
    laws::law_supported_components_are_used(d, parts);
    assert forall|k: int| #![trigger c[k]] #![trigger parts[k]] 0 <= k < parts.len() implies ((
    exists|i: int| 0 <= i < es.len() && search::has_choice((#[trigger] es[i]).parts, c[k]))
        <==> occurs(d, seq![parts[k]])) by {
        let part = seq![parts[k]];
        if exists|i: int| 0 <= i < es.len() && search::has_choice((#[trigger] es[i]).parts, c[k]) {
            let i = choose|i: int|
                0 <= i < es.len() && search::has_choice((#[trigger] es[i]).parts, c[k]);
            lemma_has_one(d, i, part);
            assert(has_one(d, i, part));
        }
        if occurs(d, part) {
            let i = choose|i: int| 0 <= i < d.list().len() && #[trigger] has_one(d, i, part);
            lemma_has_one(d, i, part);
            assert(search::has_choice(es[i].parts, c[k]));
        }
    }
    if d.supported(parts) {
        assert forall|k: int| 0 <= k < parts.len() implies occurs(
            d,
            seq![#[trigger] parts[k]],
        ) by {
            assert(c[k] == c[k]);
        }
    }
    if forall|k: int| 0 <= k < parts.len() ==> occurs(d, seq![#[trigger] parts[k]]) {
        assert forall|k: int| #![trigger c[k]] 0 <= k < parts.len() implies exists|i: int|
            0 <= i < es.len() && search::has_choice((#[trigger] es[i]).parts, c[k]) by {
            assert(occurs(d, seq![parts[k]]));
        }
    }
}

/// The matches of the components as they are given are filed first.
proof fn lemma_own_first(
    d: &Dictionary,
    c: Seq<Seq<Seq<char>>>,
    chosen: Seq<Seq<char>>,
    heads: Seq<Seq<char>>,
) -> (rest: Seq<usize>)
    requires
        heads.len() == c.len(),
        forall|k: int| 0 <= k < c.len() ==> (#[trigger] c[k]).len() > 0 && c[k][0] == heads[k],
    ensures
        d.made_of(c, chosen) == dictionary::filed(d.exact@, key::key_of(chosen + heads)) + rest,
    decreases c.len(),
{
    if c.len() == 0 {
        assert(chosen + heads =~= chosen);
        assert(dictionary::filed(d.exact@, key::key_of(chosen)) + Seq::<usize>::empty()
            =~= dictionary::filed(d.exact@, key::key_of(chosen)));
        seq![]
    } else {
        let c1 = c.skip(1);
        let h1 = heads.skip(1);
        let next = chosen.push(c[0][0]);
        assert forall|k: int| 0 <= k < c1.len() implies (#[trigger] c1[k]).len() > 0 && c1[k][0]
            == h1[k] by {
            assert(c1[k] == c[k + 1]);
        }
        let inner = lemma_own_first(d, c1, next, h1);
        assert(next + h1 =~= chosen + heads);
        let own = dictionary::filed(d.exact@, key::key_of(chosen + heads));
        let outer = lemma_first_choice_first(d, c, chosen, c[0].len());
        assert(own + inner + outer =~= own + (inner + outer));
        inner + outer
    }
}

proof fn lemma_first_choice_first(
    d: &Dictionary,
    c: Seq<Seq<Seq<char>>>,
    chosen: Seq<Seq<char>>,
    n: nat,
) -> (rest: Seq<usize>)
    requires
        c.len() > 0,
        n > 0,
    ensures
        d.made_of_first(c, chosen, n) == d.made_of(c.skip(1), chosen.push(c[0][0])) + rest,
    decreases n,
{
    let first = d.made_of(c.skip(1), chosen.push(c[0][0]));
    if n == 1 {
        assert(d.made_of_first(c, chosen, 0) =~= seq![]);
        assert(d.made_of_first(c, chosen, 1) =~= first + Seq::<usize>::empty());
        seq![]
    } else {
        let rest = lemma_first_choice_first(d, c, chosen, (n - 1) as nat);
        let last = d.made_of(c.skip(1), chosen.push(c[0][n - 1]));
        assert(first + rest + last =~= first + (rest + last));
        rest + last
    }
}

/// What is taken from increasing positions is increasing.
proof fn lemma_pick_increasing(
    es: Seq<EntryView>,
    out: Seq<usize>,
    seen: Set<Seq<char>>,
    from: Seq<usize>,
)
    requires
        laws::increasing(out + from),
    ensures
        laws::increasing(rank::pick(es, out, seen, from).0),
    decreases from.len(),
{
    if from.len() == 0 || out.len() >= rank::MAX_RESULTS {
        assert forall|i: int, j: int| 0 <= i < j < out.len() implies #[trigger] out[i]
            < #[trigger] out[j] by {
            assert((out + from)[i] < (out + from)[j]);
        }
    } else {
        let all = out + from;
        let rest = from.skip(1);
        let word = es[from[0] as int].word;
        if seen.contains(word) {
            assert forall|i: int, j: int| 0 <= i < j < (out + rest).len() implies #[trigger] (out
                + rest)[i] < #[trigger] (out + rest)[j] by {
                let p = if i < out.len() {
                    i
                } else {
                    i + 1
                };
                let q = if j < out.len() {
                    j
                } else {
                    j + 1
                };
                assert(all[p] < all[q]);
            }
            lemma_pick_increasing(es, out, seen, rest);
        } else {
            assert(out.push(from[0]) + rest =~= all);
            lemma_pick_increasing(es, out.push(from[0]), seen.insert(word), rest);
        }
    }
}

/// What was taken stays in front of what is taken later.
proof fn lemma_pick_extends(
    es: Seq<EntryView>,
    out: Seq<usize>,
    seen: Set<Seq<char>>,
    from: Seq<usize>,
)
    ensures
        out.is_prefix_of(rank::pick(es, out, seen, from).0),
    decreases from.len(),
{
    let o = rank::pick(es, out, seen, from).0;
    if from.len() > 0 && out.len() < rank::MAX_RESULTS {
        let word = es[from[0] as int].word;
        if seen.contains(word) {
            lemma_pick_extends(es, out, seen, from.skip(1));
        } else {
            let longer = out.push(from[0]);
            lemma_pick_extends(es, longer, seen.insert(word), from.skip(1));
            assert forall|i: int| 0 <= i < out.len() implies out[i] == o[i] by {
                assert(o.subrange(0, longer.len() as int)[i] == longer[i]);
            }
        }
    }
    assert(out =~= o.subrange(0, out.len() as int));
}

/// Entries made of the given components themselves come before those that have a variant, and among
/// each other in the order of the dictionary.
pub proof fn law_matches_without_variants_come_first(
    d: &Dictionary,
    parts: Seq<char>,
    exact: Seq<usize>,
    partial: Seq<usize>,
    a: int,
    b: int,
)
    requires
        d.wf(),
        d.search_result(parts, exact, partial),
        0 <= a < b < exact.len(),
        d.list()[exact[b] as int].parts.to_multiset() == laws::singles(parts).to_multiset(),
    ensures
        d.list()[exact[a] as int].parts.to_multiset() == laws::singles(parts).to_multiset(),
        exact[a] < exact[b],
{
    let es = d.list();
    let c = d.choices(parts);
    let none = Seq::<Seq<char>>::empty();
    let s = laws::singles(parts);
    assert(es.len() == d.entries.len());
    assert forall|k: int| 0 <= k < c.len() implies (#[trigger] c[k]).len() > 0 && c[k][0]
        == s[k] by {
        law_candidates_stand_for_the_component(d, seq![parts[k]], s[k]);
    }
    let rest = lemma_own_first(d, c, none, s);
    assert(none + s =~= s);
    let k = key::key_of(s);
    let own = dictionary::filed(d.exact@, k);
    let (o, seen) = rank::pick(es, seq![], Set::empty(), own);
    rank::lemma_pick_append(es, seq![], Set::empty(), own, rest);
    assert(exact == rank::pick(es, o, seen, rest).0);
    lemma_pick_extends(es, o, seen, rest);
    laws::lemma_pick_members(es, own);
    laws::law_indexes_list_the_entries(d, k, exact[b]);
    key::law_key_ignores_order(es[exact[b] as int].parts, s);
    laws::law_exact_matches_fit(d, parts);
    assert(exact[b] < es.len()) by {
        assert(d.exact_matches(parts).0[b] < es.len());
    }
    assert(own.contains(exact[b]));
    assert(b < o.len()) by {
        if b >= o.len() {
            assert(exact.len() <= 100);
            let w = es[exact[b] as int].word;
            assert(laws::has_word(es, o, w));
            let j = choose|j: int| 0 <= j < o.len() && es[#[trigger] o[j] as int].word == w;
            assert(exact.subrange(0, o.len() as int)[j] == o[j]);
            assert(es[exact[j] as int].word != es[exact[b] as int].word);
        }
    }
    assert(exact.subrange(0, o.len() as int)[a] == o[a]);
    assert(exact.subrange(0, o.len() as int)[b] == o[b]);
    assert(Seq::<usize>::empty() + own =~= own);
    lemma_pick_increasing(es, seq![], Set::empty(), own);
    assert(own.contains(o[a]));
    laws::law_indexes_list_the_entries(d, k, o[a]);
    let e = es[o[a] as int];
    assert(dictionary::entry_ok(e));
    assert forall|i: int| 0 <= i < s.len() implies (#[trigger] s[i]).len() == 1 || !s[i].contains(
        ' ',
    ) by {}
    key::law_key_identifies_components(e.parts, s);
}

/// Where in a filtered list two elements are, in the order that they had.
proof fn lemma_filter_order(s: Seq<usize>, p: spec_fn(usize) -> bool, i: int, j: int) -> (r: (
    int,
    int,
))
    requires
        0 <= i < j < s.len(),
        p(s[i]),
        p(s[j]),
    ensures
        0 <= r.0 < r.1 < s.filter(p).len(),
        s.filter(p)[r.0] == s[i],
        s.filter(p)[r.1] == s[j],
    decreases s.len(),
{
    reveal(Seq::filter);
    let t = s.drop_last();
    if j < t.len() {
        lemma_filter_order(t, p, i, j)
    } else {
        t.lemma_filter_contains(p, i);
        let k = choose|k: int| 0 <= k < t.filter(p).len() && t.filter(p)[k] == s[i];
        (k, t.filter(p).len() as int)
    }
}

/// Where two elements of a filtered list were, in the order that they have.
proof fn lemma_unfilter_order(s: Seq<usize>, p: spec_fn(usize) -> bool, i: int, j: int) -> (r: (
    int,
    int,
))
    requires
        0 <= i < j < s.filter(p).len(),
    ensures
        0 <= r.0 < r.1 < s.len(),
        s[r.0] == s.filter(p)[i],
        s[r.1] == s.filter(p)[j],
    decreases s.len(),
{
    reveal(Seq::filter);
    let t = s.drop_last();
    let f = t.filter(p);
    if j < f.len() {
        let r = lemma_unfilter_order(t, p, i, j);
        assert(s[r.0] == t[r.0] && s[r.1] == t[r.1]);
        r
    } else {
        assert(f.contains(f[i]));
        t.lemma_filter_contains_rev(p, f[i]);
        let k = choose|k: int| 0 <= k < t.len() && t[k] == f[i];
        assert(s[k] == t[k]);
        (k, s.len() - 1)
    }
}

/// Two elements of what is taken come in the order that they had.
proof fn lemma_pick_order(
    es: Seq<EntryView>,
    out: Seq<usize>,
    seen: Set<Seq<char>>,
    from: Seq<usize>,
    i: int,
    j: int,
) -> (r: (int, int))
    requires
        0 <= i < j < rank::pick(es, out, seen, from).0.len(),
    ensures
        0 <= r.0 < r.1 < (out + from).len(),
        (out + from)[r.0] == rank::pick(es, out, seen, from).0[i],
        (out + from)[r.1] == rank::pick(es, out, seen, from).0[j],
    decreases from.len(),
{
    if from.len() == 0 || out.len() >= rank::MAX_RESULTS {
        (i, j)
    } else {
        let rest = from.skip(1);
        let word = es[from[0] as int].word;
        if seen.contains(word) {
            let (a, b) = lemma_pick_order(es, out, seen, rest, i, j);
            let p = if a < out.len() {
                a
            } else {
                a + 1
            };
            let q = if b < out.len() {
                b
            } else {
                b + 1
            };
            assert((out + from)[p] == (out + rest)[a]);
            assert((out + from)[q] == (out + rest)[b]);
            (p, q)
        } else {
            assert(out.push(from[0]) + rest =~= out + from);
            lemma_pick_order(es, out.push(from[0]), seen.insert(word), rest, i, j)
        }
    }
}

/// A ranking takes positions from the order that it is given, at most a hundred and each character
/// once. Entries with fewer components come first, those with equally many in the order that they
/// had. An entry is left out only for one of its character with no more components, or where there
/// are a hundred with no more.
pub proof fn law_rankings_are_stable(
    es: Seq<EntryView>,
    order: Seq<usize>,
    r: Seq<usize>,
    x: usize,
)
    requires
        rank::ranked(es, order, r),
    ensures
        r.len() <= 100,
        forall|i: int| 0 <= i < r.len() ==> order.contains(#[trigger] r[i]),
        forall|i: int, j: int|
            0 <= i < j < r.len() ==> es[#[trigger] r[i] as int].word != es[
            #[trigger] r[j] as int].word,
        forall|i: int, j: int|
            0 <= i < j < r.len() ==> es[#[trigger] r[i] as int].parts.len()
                < es[#[trigger] r[j] as int].parts.len() || (es[r[i] as int].parts.len()
                == es[r[j] as int].parts.len() && exists|a: int, b: int|
                0 <= a < b < order.len() && #[trigger] order[a] == r[i] && #[trigger] order[b]
                    == r[j]),
        order.contains(x) ==> {
            ||| exists|j: int|
                0 <= j < r.len() && es[#[trigger] r[j] as int].word == es[x as int].word
                    && es[r[j] as int].parts.len() <= es[x as int].parts.len()
            ||| r.len() == 100 && forall|j: int|
                0 <= j < r.len() ==> es[#[trigger] r[j] as int].parts.len()
                    <= es[x as int].parts.len()
        },
{
    let sorted = choose|s: Seq<usize>| #[trigger]
        rank::sorted_by_size(es, order, s) && r == rank::pick(es, seq![], Set::empty(), s).0;
    laws::lemma_pick_members(es, sorted);
    laws::lemma_ranked_taken(es, sorted, x);
    laws::lemma_sorted_members(es, order, sorted, x);
    assert forall|i: int| 0 <= i < r.len() implies order.contains(#[trigger] r[i]) by {
        laws::lemma_sorted_members(es, order, sorted, r[i]);
    }
    assert forall|j: int| #![trigger r[j]] laws::size(es, r[j]) == es[r[j] as int].parts.len() by {}
    assert forall|i: int, j: int| 0 <= i < j < r.len() implies es[#[trigger] r[i] as int].parts.len()
        < es[#[trigger] r[j] as int].parts.len() || (es[r[i] as int].parts.len()
        == es[r[j] as int].parts.len() && exists|a: int, b: int|
        0 <= a < b < order.len() && #[trigger] order[a] == r[i] && #[trigger] order[b]
            == r[j]) by {
        let (p, q) = lemma_pick_order(es, seq![], Set::empty(), sorted, i, j);
        assert(Seq::<usize>::empty() + sorted =~= sorted);
        assert(es[sorted[p] as int].parts.len() <= es[sorted[q] as int].parts.len());
        if es[r[i] as int].parts.len() == es[r[j] as int].parts.len() {
            let n = es[r[i] as int].parts.len();
            let f = |i: usize| es[i as int].parts.len() == n;
            let (u, v) = lemma_filter_order(sorted, f, p, q);
            assert(rank::of_size(es, sorted, n) == rank::of_size(es, order, n));
            assert(order.filter(f) == sorted.filter(f));
            let (a, b) = lemma_unfilter_order(order, f, u, v);
            assert(order[a] == r[i] && order[b] == r[j]);
        }
    }
}

/// A choice from several lists is one from the first and then from the others: the choices of a
/// longer first list are those of its beginning and then those of its end. Nothing is chosen from
/// an empty list, and without lists there is one choice, whose matches are filed under its key.
pub proof fn law_choices_are_made_in_turn(
    d: &Dictionary,
    a: Seq<Seq<char>>,
    b: Seq<Seq<char>>,
    x: Seq<char>,
    rest: Seq<Seq<Seq<char>>>,
    chosen: Seq<Seq<char>>,
)
    ensures
        d.made_of(seq![a + b] + rest, chosen) == d.made_of(seq![a] + rest, chosen) + d.made_of(
            seq![b] + rest,
            chosen,
        ),
        d.made_of(seq![seq![x]] + rest, chosen) == d.made_of(rest, chosen.push(x)),
        d.made_of(seq![Seq::<Seq<char>>::empty()] + rest, chosen) == Seq::<usize>::empty(),
        d.made_of(seq![], chosen) == dictionary::filed(d.exact@, key::key_of(chosen)),
    decreases b.len(),
{
    let none = Seq::<Seq<char>>::empty();
    let one = seq![seq![x]] + rest;
    assert(one.skip(1) =~= rest);
    assert(one[0] == seq![x]);
    assert(d.made_of_first(one, chosen, 0) =~= seq![]);
    assert(d.made_of_first(one, chosen, 1) =~= d.made_of(rest, chosen.push(x)));
    let empty = seq![none] + rest;
    assert(empty[0] == none);
    assert(d.made_of_first(empty, chosen, 0) =~= seq![]);
    let ab = seq![a + b] + rest;
    let ca = seq![a] + rest;
    let cb = seq![b] + rest;
    assert(ab[0] == a + b && ca[0] == a && cb[0] == b);
    assert(ab.skip(1) =~= rest && ca.skip(1) =~= rest && cb.skip(1) =~= rest);
    lemma_same_beginning(d, ab, ca, chosen, a.len());
    lemma_after_beginning(d, ab, cb, chosen, a.len(), b.len());
}

proof fn lemma_same_beginning(
    d: &Dictionary,
    c: Seq<Seq<Seq<char>>>,
    e: Seq<Seq<Seq<char>>>,
    chosen: Seq<Seq<char>>,
    n: nat,
)
    requires
        c.len() > 0,
        e.len() > 0,
        c.skip(1) == e.skip(1),
        n <= c[0].len(),
        n <= e[0].len(),
        forall|i: int| 0 <= i < n ==> #[trigger] c[0][i] == e[0][i],
    ensures
        d.made_of_first(c, chosen, n) == d.made_of_first(e, chosen, n),
    decreases n,
{
    if n > 0 {
        lemma_same_beginning(d, c, e, chosen, (n - 1) as nat);
        assert(c[0][n - 1] == e[0][n - 1]);
    }
}

proof fn lemma_after_beginning(
    d: &Dictionary,
    c: Seq<Seq<Seq<char>>>,
    e: Seq<Seq<Seq<char>>>,
    chosen: Seq<Seq<char>>,
    m: nat,
    n: nat,
)
    requires
        c.len() > 0,
        e.len() > 0,
        c.skip(1) == e.skip(1),
        m + n <= c[0].len(),
        n <= e[0].len(),
        forall|i: int| 0 <= i < n ==> #[trigger] e[0][i] == c[0][m + i],
    ensures
        d.made_of_first(c, chosen, m + n) == d.made_of_first(c, chosen, m) + d.made_of_first(
            e,
            chosen,
            n,
        ),
    decreases n,
{
    if n > 0 {
        lemma_after_beginning(d, c, e, chosen, m, (n - 1) as nat);
        assert(e[0][n - 1] == c[0][m + n - 1]);
        let last = d.made_of(c.skip(1), chosen.push(c[0][m + n - 1]));
        assert(d.made_of_first(c, chosen, m + n) == d.made_of_first(
            c,
            chosen,
            (m + n - 1) as nat,
        ) + last);
        assert(d.made_of_first(c, chosen, m + n) =~= d.made_of_first(c, chosen, m)
            + d.made_of_first(e, chosen, n));
    } else {
        assert(d.made_of_first(e, chosen, 0) =~= seq![]);
        assert(d.made_of_first(c, chosen, m + n) =~= d.made_of_first(c, chosen, m)
            + d.made_of_first(e, chosen, n));
    }
}

/// The entry at the place `p` of `all` is the first one there of its character.
pub open spec fn first_at(es: Seq<EntryView>, all: Seq<usize>, p: int) -> bool {
    &&& 0 <= p < all.len()
    &&& forall|i: int| 0 <= i < p ==> es[#[trigger] all[i] as int].word != es[all[p] as int].word
}

/// Exact matches come in the order in which the choices give them, and of each character the first
/// one is taken.
pub proof fn law_exact_matches_keep_the_order_of_choices(
    d: &Dictionary,
    parts: Seq<char>,
    a: int,
    b: int,
)
    requires
        0 <= a < b < d.exact_matches(parts).0.len(),
    ensures
        exists|p: int, q: int|
            {
                &&& p < q
                &&& #[trigger] first_at(d.list(), d.made_of(d.choices(parts), seq![]), p)
                &&& #[trigger] first_at(d.list(), d.made_of(d.choices(parts), seq![]), q)
                &&& d.made_of(d.choices(parts), seq![])[p] == d.exact_matches(parts).0[a]
                &&& d.made_of(d.choices(parts), seq![])[q] == d.exact_matches(parts).0[b]
            },
{
    let es = d.list();
    let all = d.made_of(d.choices(parts), seq![]);
    let o = d.exact_matches(parts).0;
    let none = Seq::<usize>::empty();
    assert(none + all =~= all);
    let p = lemma_first_of_word(es, none, Set::empty(), all, a);
    let q = lemma_first_of_word(es, none, Set::empty(), all, b);
    laws::lemma_pick_members(es, all);
    assert(es[o[a] as int].word != es[o[b] as int].word);
    lemma_firsts_in_order(es, none, Set::empty(), all, a, b, p, q);
    assert(first_at(es, all, p) && first_at(es, all, q));
}

/// Where what is taken stands first.
proof fn lemma_first_of_word(
    es: Seq<EntryView>,
    out: Seq<usize>,
    seen: Set<Seq<char>>,
    from: Seq<usize>,
    j: int,
) -> (p: int)
    requires
        0 <= j < rank::pick(es, out, seen, from).0.len(),
        j >= out.len(),
        forall|i: int| 0 <= i < out.len() ==> seen.contains(es[#[trigger] out[i] as int].word),
    ensures
        0 <= p < from.len(),
        from[p] == rank::pick(es, out, seen, from).0[j],
        !seen.contains(es[from[p] as int].word),
        forall|i: int|
            0 <= i < p ==> es[#[trigger] from[i] as int].word != es[from[p] as int].word,
    decreases from.len(),
{
    let word = es[from[0] as int].word;
    let rest = from.skip(1);
    if seen.contains(word) {
        let p = lemma_first_of_word(es, out, seen, rest, j);
        assert(from[p + 1] == rest[p]);
        assert forall|i: int| 0 <= i < p + 1 implies es[#[trigger] from[i] as int].word
            != es[from[p + 1] as int].word by {
            if i > 0 {
                assert(from[i] == rest[i - 1]);
            }
        }
        p + 1
    } else if j == out.len() {
        lemma_pick_extends(es, out.push(from[0]), seen.insert(word), rest);
        let o = rank::pick(es, out, seen, from).0;
        assert(o.subrange(0, (out.len() + 1) as int)[j] == out.push(from[0])[j]);
        0
    } else {
        let out1 = out.push(from[0]);
        let seen1 = seen.insert(word);
        let p = lemma_first_of_word(es, out1, seen1, rest, j);
        assert(from[p + 1] == rest[p]);
        assert forall|i: int| 0 <= i < p + 1 implies es[#[trigger] from[i] as int].word
            != es[from[p + 1] as int].word by {
            if i > 0 {
                assert(from[i] == rest[i - 1]);
            }
        }
        p + 1
    }
}

/// First places come in the order of what is taken.
proof fn lemma_firsts_in_order(
    es: Seq<EntryView>,
    out: Seq<usize>,
    seen: Set<Seq<char>>,
    from: Seq<usize>,
    a: int,
    b: int,
    p: int,
    q: int,
)
    requires
        out.len() <= a < b < rank::pick(es, out, seen, from).0.len(),
        forall|i: int| 0 <= i < out.len() ==> seen.contains(es[#[trigger] out[i] as int].word),
        0 <= p < from.len(),
        0 <= q < from.len(),
        from[p] == rank::pick(es, out, seen, from).0[a],
        from[q] == rank::pick(es, out, seen, from).0[b],
        es[from[p] as int].word != es[from[q] as int].word,
        !seen.contains(es[from[p] as int].word),
        !seen.contains(es[from[q] as int].word),
        forall|i: int|
            0 <= i < p ==> es[#[trigger] from[i] as int].word != es[from[p] as int].word,
        forall|i: int|
            0 <= i < q ==> es[#[trigger] from[i] as int].word != es[from[q] as int].word,
    ensures
        p < q,
    decreases from.len(),
{
    let word = es[from[0] as int].word;
    let rest = from.skip(1);
    let out1 = out.push(from[0]);
    let seen1 = seen.insert(word);
    let o = rank::pick(es, out, seen, from).0;
    if p > 0 && q > 0 {
        assert(rest[p - 1] == from[p] && rest[q - 1] == from[q]);
        assert(es[from[0] as int].word != es[from[p] as int].word);
        assert(es[from[0] as int].word != es[from[q] as int].word);
        assert forall|i: int| 0 <= i < p - 1 implies es[#[trigger] rest[i] as int].word
            != es[rest[p - 1] as int].word by {
            assert(rest[i] == from[i + 1]);
        }
        assert forall|i: int| 0 <= i < q - 1 implies es[#[trigger] rest[i] as int].word
            != es[rest[q - 1] as int].word by {
            assert(rest[i] == from[i + 1]);
        }
        if seen.contains(word) {
            lemma_firsts_in_order(es, out, seen, rest, a, b, p - 1, q - 1);
        } else {
            lemma_pick_extends(es, out1, seen1, rest);
            assert(o.subrange(0, out1.len() as int)[out.len() as int] == from[0]);
            assert(a > out.len());
            lemma_firsts_in_order(es, out1, seen1, rest, a, b, p - 1, q - 1);
        }
    } else if q == 0 {
        lemma_pick_extends(es, out1, seen1, rest);
        assert(o.subrange(0, out1.len() as int)[out.len() as int] == from[0]);
        assert(o[out.len() as int] == o[b]);
        lemma_pick_distinct(es, out, seen, from, out.len() as int, b);
    }
}

/// No character is taken twice.
proof fn lemma_pick_distinct(
    es: Seq<EntryView>,
    out: Seq<usize>,
    seen: Set<Seq<char>>,
    from: Seq<usize>,
    i: int,
    j: int,
)
    requires
        out.len() <= i < j < rank::pick(es, out, seen, from).0.len(),
    ensures
        es[rank::pick(es, out, seen, from).0[i] as int].word != es[rank::pick(
            es,
            out,
            seen,
            from,
        ).0[j] as int].word,
    decreases from.len(),
{
    let word = es[from[0] as int].word;
    let rest = from.skip(1);
    if seen.contains(word) {
        lemma_pick_distinct(es, out, seen, rest, i, j);
    } else {
        let out1 = out.push(from[0]);
        let seen1 = seen.insert(word);
        if i == out.len() {
            lemma_pick_extends(es, out1, seen1, rest);
            let o = rank::pick(es, out, seen, from).0;
            assert(o.subrange(0, out1.len() as int)[i] == from[0]);
            lemma_pick_unseen(es, out1, seen1, rest, j);
        } else {
            lemma_pick_distinct(es, out1, seen1, rest, i, j);
        }
    }
}

/// What is taken was not seen.
proof fn lemma_pick_unseen(
    es: Seq<EntryView>,
    out: Seq<usize>,
    seen: Set<Seq<char>>,
    from: Seq<usize>,
    j: int,
)
    requires
        out.len() <= j < rank::pick(es, out, seen, from).0.len(),
    ensures
        !seen.contains(es[rank::pick(es, out, seen, from).0[j] as int].word),
    decreases from.len(),
{
    let word = es[from[0] as int].word;
    let rest = from.skip(1);
    if seen.contains(word) {
        lemma_pick_unseen(es, out, seen, rest, j);
    } else {
        let out1 = out.push(from[0]);
        let seen1 = seen.insert(word);
        if j == out.len() {
            lemma_pick_extends(es, out1, seen1, rest);
            let o = rank::pick(es, out, seen, from).0;
            assert(o.subrange(0, out1.len() as int)[j] == from[0]);
        } else {
            lemma_pick_unseen(es, out1, seen1, rest, j);
        }
    }
}

} // verus!
