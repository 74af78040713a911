//! What a search finds.

use vstd::prelude::*;

use crate::dictionary::{self, Dictionary, EntryView, Sources};
use crate::grades;
use crate::key;
use crate::rank::{self, MAX_RESULTS};
use crate::search;
use crate::structure;
use crate::text;
use crate::variants;

verus! {

/// The number of components of the entry at `i`.
pub open spec fn size(es: Seq<EntryView>, i: usize) -> nat {
    es[i as int].parts.len()
}

/// The character `w` is among those of the entries at the positions of `s`.
pub open spec fn has_word(es: Seq<EntryView>, s: Seq<usize>, w: Seq<char>) -> bool {
    exists|j: int| 0 <= j < s.len() && es[#[trigger] s[j] as int].word == w
}

/// No two positions of `s` are those of entries of one character.
pub open spec fn distinct_words(es: Seq<EntryView>, s: Seq<usize>) -> bool {
    forall|i: int, j: int|
        0 <= i < j < s.len() ==> es[#[trigger] s[i] as int].word != es[#[trigger] s[j] as int].word
}

/// The positions of `s` are in ascending order of the number of components.
pub open spec fn ascending(es: Seq<EntryView>, s: Seq<usize>) -> bool {
    forall|i: int, j: int|
        0 <= i < j < s.len() ==> size(es, #[trigger] s[i]) <= size(es, #[trigger] s[j])
}

/// `sel` takes one choice from each list.
pub open spec fn selects(sel: Seq<Seq<char>>, c: Seq<Seq<Seq<char>>>) -> bool {
    &&& sel.len() == c.len()
    &&& forall|k: int| 0 <= k < c.len() ==> (#[trigger] c[k]).contains(sel[k])
}

/// What is seen are the characters of what was taken, and none was taken twice.
spec fn picked(es: Seq<EntryView>, out: Seq<usize>, seen: Set<Seq<char>>) -> bool {
    &&& distinct_words(es, out)
    &&& forall|w: Seq<char>| #[trigger] seen.contains(w) <==> has_word(es, out, w)
}

proof fn lemma_push_picked(es: Seq<EntryView>, out: Seq<usize>, seen: Set<Seq<char>>, x: usize)
    requires
        picked(es, out, seen),
        !seen.contains(es[x as int].word),
    ensures
        picked(es, out.push(x), seen.insert(es[x as int].word)),
{
    let new = out.push(x);
    let word = es[x as int].word;
    let seen1 = seen.insert(word);
    assert forall|w: Seq<char>| #[trigger] seen1.contains(w) <==> has_word(es, new, w) by {
        if seen.contains(w) {
            let j = choose|j: int| 0 <= j < out.len() && es[#[trigger] out[j] as int].word == w;
            assert(es[new[j] as int].word == w);
        }
        if w == word {
            assert(es[new[out.len() as int] as int].word == w);
        }
        if has_word(es, new, w) && w != word {
            let j = choose|j: int| 0 <= j < new.len() && es[#[trigger] new[j] as int].word == w;
            assert(es[out[j] as int].word == w);
        }
    }
    assert forall|i: int, j: int| 0 <= i < j < new.len() implies es[#[trigger] new[i] as int].word
        != es[#[trigger] new[j] as int].word by {
        if j == out.len() {
            assert(has_word(es, out, es[out[i] as int].word));
        }
    }
}

/// What taking gives: no character twice, no more than a search gives, only what was offered, and
/// every character that was offered unless there were too many.
proof fn lemma_pick(es: Seq<EntryView>, out: Seq<usize>, seen: Set<Seq<char>>, from: Seq<usize>)
    requires
        picked(es, out, seen),
        out.len() <= MAX_RESULTS,
    ensures
        ({
            let (o, s) = rank::pick(es, out, seen, from);
            &&& picked(es, o, s)
            &&& o.len() <= MAX_RESULTS
            &&& forall|i: int|
                0 <= i < o.len() ==> out.contains(#[trigger] o[i]) || from.contains(o[i])
            &&& forall|w: Seq<char>| has_word(es, out, w) ==> #[trigger] has_word(es, o, w)
            &&& forall|x: usize| #[trigger]
                from.contains(x) ==> o.len() == MAX_RESULTS || has_word(es, o, es[x as int].word)
        }),
    decreases from.len(),
{
    if from.len() == 0 || out.len() >= MAX_RESULTS {
        assert forall|i: int| 0 <= i < out.len() implies out.contains(#[trigger] out[i]) by {}
    } else {
        let x = from[0];
        let rest = from.skip(1);
        let word = es[x as int].word;
        let fresh = !seen.contains(word);
        let out1 = if fresh {
            out.push(x)
        } else {
            out
        };
        let seen1 = if fresh {
            seen.insert(word)
        } else {
            seen
        };
        if fresh {
            lemma_push_picked(es, out, seen, x);
        }
        lemma_pick(es, out1, seen1, rest);
        let (o, s) = rank::pick(es, out, seen, from);
        assert((o, s) == rank::pick(es, out1, seen1, rest));
        assert(has_word(es, out1, word)) by {
            assert(seen1.contains(word));
        }
        assert forall|w: Seq<char>| has_word(es, out, w) implies #[trigger] has_word(es, o, w) by {
            assert(seen.contains(w));
            assert(seen1.contains(w));
            assert(has_word(es, out1, w));
        }
        assert forall|i: int| 0 <= i < o.len() implies out.contains(#[trigger] o[i])
            || from.contains(o[i]) by {
            if rest.contains(o[i]) {
                let k = choose|k: int| 0 <= k < rest.len() && rest[k] == o[i];
                assert(from[k + 1] == o[i]);
            } else {
                let k = choose|k: int| 0 <= k < out1.len() && out1[k] == o[i];
                if k < out.len() {
                    assert(out[k] == o[i]);
                } else {
                    assert(from[0] == o[i]);
                }
            }
        }
        assert forall|y: usize| #[trigger] from.contains(y) implies o.len() == MAX_RESULTS
            || has_word(es, o, es[y as int].word) by {
            let k = choose|k: int| 0 <= k < from.len() && from[k] == y;
            if k > 0 {
                assert(rest[k - 1] == y);
                assert(rest.contains(y));
            } else {
                assert(has_word(es, o, word));
            }
        }
    }
}

/// An entry that a selection is a rearrangement of is filed under the selection.
proof fn lemma_filed_permutation(d: &Dictionary, sel: Seq<Seq<char>>, i: usize)
    requires
        d.wf(),
        i < d.list().len(),
        d.list()[i as int].parts.to_multiset() == sel.to_multiset(),
    ensures
        dictionary::filed(d.exact@, key::key_of(sel)).contains(i),
{
    key::law_key_ignores_order(d.list()[i as int].parts, sel);
    assert(d.entries.len() <= usize::MAX);
    dictionary::lemma_with_key(d.list(), key::key_of(sel), i);
    assert(dictionary::filed(d.exact@, key::key_of(sel)) == dictionary::with_key(
        d.list(),
        key::key_of(sel),
    ));
}

/// Each way of choosing contributes its matches.
proof fn lemma_made_of_complete(
    d: &Dictionary,
    c: Seq<Seq<Seq<char>>>,
    chosen: Seq<Seq<char>>,
    sel: Seq<Seq<char>>,
    i: usize,
)
    requires
        selects(sel, c),
        dictionary::filed(d.exact@, key::key_of(chosen + sel)).contains(i),
    ensures
        d.made_of(c, chosen).contains(i),
    decreases c.len(),
{
    if c.len() == 0 {
        assert(chosen + sel =~= chosen);
    } else {
        let n = choose|n: int| 0 <= n < c[0].len() && c[0][n] == sel[0];
        assert(c[0].contains(sel[0]));
        let rest = c.skip(1);
        assert forall|k: int| 0 <= k < rest.len() implies (#[trigger] rest[k]).contains(
            sel.skip(1)[k],
        ) by {
            assert(c[k + 1].contains(sel[k + 1]));
        }
        assert(chosen.push(sel[0]) + sel.skip(1) =~= chosen + sel);
        lemma_made_of_complete(d, rest, chosen.push(sel[0]), sel.skip(1), i);
        lemma_made_of_first_complete(d, c, chosen, n, c[0].len(), i);
    }
}

proof fn lemma_made_of_first_complete(
    d: &Dictionary,
    c: Seq<Seq<Seq<char>>>,
    chosen: Seq<Seq<char>>,
    n: int,
    m: nat,
    i: usize,
)
    requires
        c.len() > 0,
        0 <= n < m,
        d.made_of(c.skip(1), chosen.push(c[0][n])).contains(i),
    ensures
        d.made_of_first(c, chosen, m).contains(i),
    decreases m,
{
    let before = d.made_of_first(c, chosen, (m - 1) as nat);
    let last = d.made_of(c.skip(1), chosen.push(c[0][m - 1]));
    if n < m - 1 {
        lemma_made_of_first_complete(d, c, chosen, n, (m - 1) as nat, i);
    }
    vstd::seq_lib::lemma_seq_concat_contains_all_elements(before, last, i);
}

/// Every match comes from a way of choosing.
proof fn lemma_made_of_sound(
    d: &Dictionary,
    c: Seq<Seq<Seq<char>>>,
    chosen: Seq<Seq<char>>,
    i: usize,
) -> (sel: Seq<Seq<char>>)
    requires
        d.made_of(c, chosen).contains(i),
    ensures
        selects(sel, c),
        dictionary::filed(d.exact@, key::key_of(chosen + sel)).contains(i),
    decreases c.len(), c[0].len() + 1,
{
    if c.len() == 0 {
        let none = Seq::<Seq<char>>::empty();
        assert(chosen + none =~= chosen);
        none
    } else {
        lemma_made_of_first_sound(d, c, chosen, c[0].len(), i)
    }
}

proof fn lemma_made_of_first_sound(
    d: &Dictionary,
    c: Seq<Seq<Seq<char>>>,
    chosen: Seq<Seq<char>>,
    m: nat,
    i: usize,
) -> (sel: Seq<Seq<char>>)
    requires
        c.len() > 0,
        m <= c[0].len(),
        d.made_of_first(c, chosen, m).contains(i),
    ensures
        selects(sel, c),
        dictionary::filed(d.exact@, key::key_of(chosen + sel)).contains(i),
    decreases c.len(), m,
{
    let before = d.made_of_first(c, chosen, (m - 1) as nat);
    let x = c[0][m - 1];
    let last = d.made_of(c.skip(1), chosen.push(x));
    vstd::seq_lib::lemma_seq_concat_contains_all_elements(before, last, i);
    if before.contains(i) {
        lemma_made_of_first_sound(d, c, chosen, (m - 1) as nat, i)
    } else {
        let tail = lemma_made_of_sound(d, c.skip(1), chosen.push(x), i);
        let sel = seq![x] + tail;
        assert(chosen + sel =~= chosen.push(x) + tail);
        assert forall|k: int| 0 <= k < c.len() implies (#[trigger] c[k]).contains(sel[k]) by {
            if k > 0 {
                assert(c.skip(1)[k - 1].contains(tail[k - 1]));
            } else {
                assert(c[0][m - 1] == x);
            }
        }
        sel
    }
}

/// What may stand for a component: itself, a listed variant, and nothing else.
pub proof fn lemma_candidates(d: &Dictionary, part: Seq<char>, x: Seq<char>)
    ensures
        d.candidates(part).contains(x) <==> x == part || variants::listed(
            variants::lists(d.component_variants@),
            part,
        ).contains(x) || variants::listed(variants::lists(d.char_variants@), part).contains(x),
{
    let a = seq![part];
    let b = variants::listed(variants::lists(d.component_variants@), part);
    let c = variants::listed(variants::lists(d.char_variants@), part);
    let none = Seq::<Seq<char>>::empty();
    (a + b + c).lemma_remove_duplicates_properties(none);
    assert(a + b + c + none =~= a + b + c);
    vstd::seq_lib::lemma_seq_concat_contains_all_elements(a + b, c, x);
    vstd::seq_lib::lemma_seq_concat_contains_all_elements(a, b, x);
    assert(a.contains(x) <==> x == part) by {
        assert(a[0] == part);
    }
}

/// Candidates for single characters are single characters or words without a space.
proof fn lemma_selection_plain(d: &Dictionary, parts: Seq<char>, sel: Seq<Seq<char>>)
    requires
        d.wf(),
        selects(sel, d.choices(parts)),
    ensures
        forall|i: int| 0 <= i < sel.len() ==> (#[trigger] sel[i]).len() == 1 || !sel[i].contains(
            ' ',
        ),
{
    let c = d.choices(parts);
    assert forall|i: int| 0 <= i < sel.len() implies (#[trigger] sel[i]).len() == 1
        || !sel[i].contains(' ') by {
        let part = seq![parts[i]];
        assert(c[i].contains(sel[i]));
        lemma_candidates(d, part, sel[i]);
        if sel[i] != part {
            let a = variants::lists(d.component_variants@);
            let b = variants::lists(d.char_variants@);
            assert(text::solid(sel[i])) by {
                if variants::listed(a, part).contains(sel[i]) {
                    assert(a.contains_key(part));
                    let k = choose|k: int| 0 <= k < a[part].len() && a[part][k] == sel[i];
                    assert(text::solid(a[part][k]));
                } else {
                    assert(b.contains_key(part));
                    let k = choose|k: int| 0 <= k < b[part].len() && b[part][k] == sel[i];
                    assert(text::solid(b[part][k]));
                }
            }
            if sel[i].contains(' ') {
                let k = choose|k: int| 0 <= k < sel[i].len() && sel[i][k] == ' ';
                assert(!text::white_space(sel[i][k]));
            }
        }
    }
}

/// Every exact match is an entry whose components are exactly one candidate for each of the given
/// components, in any order; no character is given twice, and there are no more than a search
/// gives.
pub proof fn law_exact_matches_fit(d: &Dictionary, parts: Seq<char>)
    requires
        d.wf(),
    ensures
        d.exact_matches(parts).0.len() <= MAX_RESULTS,
        distinct_words(d.list(), d.exact_matches(parts).0),
        forall|j: int| #![trigger d.exact_matches(parts).0[j]]
            0 <= j < d.exact_matches(parts).0.len() ==> {
                let i = d.exact_matches(parts).0[j];
                &&& i < d.list().len()
                &&& exists|sel: Seq<Seq<char>>| #[trigger]
                    selects(sel, d.choices(parts)) && sel.to_multiset()
                        == d.list()[i as int].parts.to_multiset()
            },
{
    let es = d.list();
    let c = d.choices(parts);
    let all = d.made_of(c, seq![]);
    let none = Seq::<Seq<char>>::empty();
    lemma_pick(es, seq![], Set::empty(), all);
    assert(d.entries.len() <= usize::MAX);
    assert forall|j: int| #![trigger d.exact_matches(parts).0[j]]
        0 <= j < d.exact_matches(parts).0.len() implies {
        let i = d.exact_matches(parts).0[j];
        &&& i < d.list().len()
        &&& exists|sel: Seq<Seq<char>>| #[trigger]
            selects(sel, d.choices(parts)) && sel.to_multiset()
                == d.list()[i as int].parts.to_multiset()
    } by {
        let i = d.exact_matches(parts).0[j];
        assert(all.contains(i));
        let sel = lemma_made_of_sound(d, c, none, i);
        assert(none + sel =~= sel);
        let k = key::key_of(sel);
        assert(dictionary::filed(d.exact@, k) == dictionary::with_key(es, k));
        dictionary::lemma_with_key(es, k, i);
        assert(dictionary::entry_ok(es[i as int]));
        lemma_selection_plain(d, parts, sel);
        key::law_key_identifies_components(es[i as int].parts, sel);
        assert(selects(sel, c));
    }
}

/// Every entry whose components are exactly one candidate for each of the given components, in any
/// order, is found: its character is among the exact matches, unless there are as many as a search
/// gives.
pub proof fn law_exact_matches_are_complete(
    d: &Dictionary,
    parts: Seq<char>,
    sel: Seq<Seq<char>>,
    i: usize,
)
    requires
        d.wf(),
        i < d.list().len(),
        selects(sel, d.choices(parts)),
        sel.to_multiset() == d.list()[i as int].parts.to_multiset(),
    ensures
        d.exact_matches(parts).0.len() == MAX_RESULTS || has_word(
            d.list(),
            d.exact_matches(parts).0,
            d.list()[i as int].word,
        ),
{
    let none = Seq::<Seq<char>>::empty();
    lemma_filed_permutation(d, sel, i);
    assert(none + sel =~= sel);
    lemma_made_of_complete(d, d.choices(parts), none, sel, i);
    lemma_pick(d.list(), seq![], Set::empty(), d.made_of(d.choices(parts), none));
}

/// What taking gives from a list that is in ascending order of size.
proof fn lemma_pick_ascending(
    es: Seq<EntryView>,
    out: Seq<usize>,
    seen: Set<Seq<char>>,
    from: Seq<usize>,
)
    requires
        picked(es, out, seen),
        out.len() <= MAX_RESULTS,
        ascending(es, out + from),
    ensures
        ({
            let o = rank::pick(es, out, seen, from).0;
            &&& ascending(es, o)
            &&& out.is_prefix_of(o)
            &&& forall|x: usize| #[trigger] from.contains(x) ==> taken(es, o, x)
        }),
    decreases from.len(),
{
    let o = rank::pick(es, out, seen, from).0;
    if from.len() == 0 {
        assert(out + from =~= out);
        assert(out =~= o.subrange(0, out.len() as int));
    } else if out.len() >= MAX_RESULTS {
        assert(o == out);
        assert(out =~= o.subrange(0, out.len() as int));
        assert forall|i: int, j: int| 0 <= i < j < out.len() implies size(es, #[trigger] out[i])
            <= size(es, #[trigger] out[j]) by {
            assert((out + from)[i] == out[i] && (out + from)[j] == out[j]);
        }
        assert forall|x: usize| #[trigger] from.contains(x) implies taken(es, o, x) by {
            let k = choose|k: int| 0 <= k < from.len() && from[k] == x;
            assert forall|j: int| 0 <= j < o.len() implies size(es, #[trigger] o[j]) <= size(
                es,
                x,
            ) by {
                assert((out + from)[j] == o[j] && (out + from)[out.len() + k] == x);
            }
        }
    } else {
        let x = from[0];
        let rest = from.skip(1);
        let word = es[x as int].word;
        let fresh = !seen.contains(word);
        let out1 = if fresh {
            out.push(x)
        } else {
            out
        };
        let seen1 = if fresh {
            seen.insert(word)
        } else {
            seen
        };
        let both = out + from;
        let both1 = out1 + rest;
        if fresh {
            lemma_push_picked(es, out, seen, x);
            assert(both1 =~= both);
        } else {
            assert forall|i: int, j: int| 0 <= i < j < both1.len() implies size(
                es,
                #[trigger] both1[i],
            ) <= size(es, #[trigger] both1[j]) by {
                let i0 = if i < out.len() {
                    i
                } else {
                    i + 1
                };
                let j0 = if j < out.len() {
                    j
                } else {
                    j + 1
                };
                assert(both[i0] == both1[i] && both[j0] == both1[j]);
            }
        }
        lemma_pick_ascending(es, out1, seen1, rest);
        assert(o == rank::pick(es, out1, seen1, rest).0);
        assert(out =~= o.subrange(0, out.len() as int)) by {
            assert forall|k: int| 0 <= k < out.len() implies o[k] == out[k] by {
                assert(o.subrange(0, out1.len() as int)[k] == out1[k]);
            }
        }
        assert forall|y: usize| #[trigger] from.contains(y) implies taken(es, o, y) by {
            let k = choose|k: int| 0 <= k < from.len() && from[k] == y;
            if k > 0 {
                assert(rest[k - 1] == y);
                assert(rest.contains(y));
            } else {
                assert(seen1.contains(word));
                assert(picked(es, out1, seen1));
                assert(has_word(es, out1, word));
                let j = choose|j: int|
                    0 <= j < out1.len() && es[#[trigger] out1[j] as int].word == word;
                assert(o.subrange(0, out1.len() as int)[j] == out1[j]);
                assert(o[j] == out1[j]);
                if j < out.len() {
                    assert(both[j] == out[j] && both[out.len() as int] == x);
                }
            }
        }
    }
}

/// The entry at `x` is accounted for in `o`: an entry of its character that is no larger is there,
/// or there are as many as a search gives and none of them is larger.
pub open spec fn taken(es: Seq<EntryView>, o: Seq<usize>, x: usize) -> bool {
    ||| exists|j: int|
        0 <= j < o.len() && es[#[trigger] o[j] as int].word == es[x as int].word && size(es, o[j])
            <= size(es, x)
    ||| o.len() == MAX_RESULTS && forall|j: int|
        0 <= j < o.len() ==> size(es, #[trigger] o[j]) <= size(es, x)
}

/// Sorting by size keeps the positions.
pub proof fn lemma_sorted_members(es: Seq<EntryView>, order: Seq<usize>, sorted: Seq<usize>, i: usize)
    requires
        rank::sorted_by_size(es, order, sorted),
    ensures
        sorted.contains(i) <==> order.contains(i),
{
    let n = size(es, i);
    let p = |k: usize| es[k as int].parts.len() == n;
    assert(rank::of_size(es, sorted, n) == rank::of_size(es, order, n));
    if sorted.contains(i) {
        let k = choose|k: int| 0 <= k < sorted.len() && sorted[k] == i;
        sorted.lemma_filter_contains(p, k);
        order.lemma_filter_contains_rev(p, i);
    }
    if order.contains(i) {
        let k = choose|k: int| 0 <= k < order.len() && order[k] == i;
        order.lemma_filter_contains(p, k);
        sorted.lemma_filter_contains_rev(p, i);
    }
}

/// What taking from the beginning gives.
pub proof fn lemma_pick_members(es: Seq<EntryView>, from: Seq<usize>)
    ensures
        ({
            let o = rank::pick(es, seq![], Set::empty(), from).0;
            &&& distinct_words(es, o)
            &&& o.len() <= MAX_RESULTS
            &&& forall|i: int| 0 <= i < o.len() ==> from.contains(#[trigger] o[i])
            &&& forall|x: usize| #[trigger]
                from.contains(x) ==> o.len() == MAX_RESULTS || has_word(es, o, es[x as int].word)
        }),
{
    lemma_pick(es, seq![], Set::empty(), from);
}

/// What a ranking leaves out is accounted for.
pub proof fn lemma_ranked_taken(es: Seq<EntryView>, sorted: Seq<usize>, x: usize)
    requires
        ascending(es, sorted),
    ensures
        sorted.contains(x) ==> taken(es, rank::pick(es, seq![], Set::empty(), sorted).0, x),
{
    assert(Seq::<usize>::empty() + sorted =~= sorted);
    lemma_pick_ascending(es, seq![], Set::empty(), sorted);
}

/// Every partial match is an entry that has a candidate for each of the given components among its
/// own; its character is not among the exact matches. No character is given twice, there are no
/// more than a search gives, and entries with fewer components come first.
pub proof fn law_partial_matches_fit(
    d: &Dictionary,
    parts: Seq<char>,
    exact: Seq<usize>,
    partial: Seq<usize>,
)
    requires
        d.wf(),
        d.search_result(parts, exact, partial),
    ensures
        partial.len() <= MAX_RESULTS,
        distinct_words(d.list(), partial),
        ascending(d.list(), partial),
        forall|j: int|
            0 <= j < partial.len() ==> {
                &&& (#[trigger] partial[j]) < d.list().len()
                &&& search::has_choices(d.list()[partial[j] as int].parts, d.choices(parts))
                &&& !has_word(d.list(), exact, d.list()[partial[j] as int].word)
            },
        parts.len() == 0 ==> partial.len() == 0,
{
    let es = d.list();
    let c = d.choices(parts);
    let seen = d.exact_matches(parts).1;
    let order = choose|order: Seq<usize>| #[trigger]
        d.lists_left(c, seen, order) && rank::ranked(es, order, partial);
    let sorted = choose|sorted: Seq<usize>| #[trigger]
        rank::sorted_by_size(es, order, sorted) && partial == rank::pick(
            es,
            seq![],
            Set::empty(),
            sorted,
        ).0;
    lemma_pick(es, seq![], Set::empty(), d.made_of(c, seq![]));
    lemma_pick(es, seq![], Set::empty(), sorted);
    assert(Seq::<usize>::empty() + sorted =~= sorted);
    lemma_pick_ascending(es, seq![], Set::empty(), sorted);
    assert forall|j: int| 0 <= j < partial.len() implies {
        &&& (#[trigger] partial[j]) < d.list().len()
        &&& search::has_choices(d.list()[partial[j] as int].parts, d.choices(parts))
        &&& !has_word(d.list(), exact, d.list()[partial[j] as int].word)
        &&& c.len() > 0
    } by {
        let i = partial[j];
        assert(sorted.contains(i));
        lemma_sorted_members(es, order, sorted, i);
        assert(order.contains(i));
        assert(d.left(c, seen, i));
        assert(seen.contains(es[i as int].word) <==> has_word(es, exact, es[i as int].word));
    }
    if parts.len() == 0 && partial.len() > 0 {
        assert(partial[0] < d.list().len());
    }
}

/// Every entry that has a candidate for each of the given components among its own is found: its
/// character is among the exact matches, or an entry of it that is no larger is among the partial
/// ones, unless there are as many as a search gives and none of them is larger.
pub proof fn law_partial_matches_are_complete(
    d: &Dictionary,
    parts: Seq<char>,
    exact: Seq<usize>,
    partial: Seq<usize>,
    i: usize,
)
    requires
        d.wf(),
        d.search_result(parts, exact, partial),
        parts.len() > 0,
        i < d.list().len(),
        forall|k: int|
            0 <= k < parts.len() ==> exists|j: int|
                0 <= j < (#[trigger] d.choices(parts)[k]).len() && d.list()[i as int].parts.contains(
                    #[trigger] d.choices(parts)[k][j],
                ),
    ensures
        has_word(d.list(), exact, d.list()[i as int].word) || taken(d.list(), partial, i),
{
    let c = d.choices(parts);
    let own = d.list()[i as int].parts;
    assert forall|k: int| 0 <= k < c.len() implies search::has_choice(own, #[trigger] c[k]) by {
        let j = choose|j: int| 0 <= j < c[k].len() && own.contains(#[trigger] c[k][j]);
        assert(own.contains(c[k][j]));
    }
    lemma_partial_matches_are_complete(d, parts, exact, partial, i);
}

/// What the filter of a search keeps is found.
pub proof fn lemma_partial_matches_are_complete(
    d: &Dictionary,
    parts: Seq<char>,
    exact: Seq<usize>,
    partial: Seq<usize>,
    i: usize,
)
    requires
        d.wf(),
        d.search_result(parts, exact, partial),
        parts.len() > 0,
        i < d.list().len(),
        search::has_choices(d.list()[i as int].parts, d.choices(parts)),
    ensures
        has_word(d.list(), exact, d.list()[i as int].word) || taken(d.list(), partial, i),
{
    let es = d.list();
    let c = d.choices(parts);
    let seen = d.exact_matches(parts).1;
    let order = choose|order: Seq<usize>| #[trigger]
        d.lists_left(c, seen, order) && rank::ranked(es, order, partial);
    let sorted = choose|sorted: Seq<usize>| #[trigger]
        rank::sorted_by_size(es, order, sorted) && partial == rank::pick(
            es,
            seq![],
            Set::empty(),
            sorted,
        ).0;
    lemma_pick(es, seq![], Set::empty(), d.made_of(c, seq![]));
    assert(Seq::<usize>::empty() + sorted =~= sorted);
    lemma_pick_ascending(es, seq![], Set::empty(), sorted);
    if !has_word(es, exact, es[i as int].word) {
        assert(!seen.contains(es[i as int].word));
        assert(d.left(c, seen, i));
        assert(order.contains(i));
        lemma_sorted_members(es, order, sorted, i);
    }
}

/// A component is supported exactly if some entry has it or a variant of it.
pub proof fn law_supported_components_are_used(d: &Dictionary, parts: Seq<char>)
    requires
        d.wf(),
    ensures
        d.supported(parts) <==> forall|k: int| #![trigger d.choices(parts)[k]]
            0 <= k < parts.len() ==> exists|i: int|
                0 <= i < d.list().len() && search::has_choice(
                    (#[trigger] d.list()[i]).parts,
                    d.choices(parts)[k],
                ),
{
    let es = d.list();
    let c = d.choices(parts);
    assert(d.entries.len() <= usize::MAX);
    assert forall|k: int| #![trigger c[k]] 0 <= k < parts.len() implies (d.supported_part(c[k])
        <==> exists|i: int|
        0 <= i < es.len() && search::has_choice((#[trigger] es[i]).parts, c[k])) by {
        if d.supported_part(c[k]) {
            let j = choose|j: int|
                0 <= j < c[k].len() && d.by_part@.contains_key(#[trigger] c[k][j]);
            let x = c[k][j];
            assert(dictionary::filed(d.by_part@, x) == dictionary::with_part(es, x));
            let i = dictionary::filed(d.by_part@, x)[0];
            assert(dictionary::with_part(es, x).contains(i));
            dictionary::lemma_with_part(es, x, i);
            assert(search::has_choice(es[i as int].parts, c[k]));
        }
        if exists|i: int| 0 <= i < es.len() && search::has_choice((#[trigger] es[i]).parts, c[k]) {
            let i = choose|i: int|
                0 <= i < es.len() && search::has_choice((#[trigger] es[i]).parts, c[k]);
            let j = choose|j: int| 0 <= j < c[k].len() && es[i].parts.contains(#[trigger] c[k][j]);
            let x = c[k][j];
            dictionary::lemma_with_part(es, x, i as usize);
            assert(dictionary::filed(d.by_part@, x) == dictionary::with_part(es, x));
            assert(d.by_part@.contains_key(c[k][j]));
        }
    }
    if d.supported(parts) {
        assert forall|k: int| #![trigger c[k]] 0 <= k < parts.len() implies exists|i: int|
            0 <= i < es.len() && search::has_choice((#[trigger] es[i]).parts, c[k]) by {
            assert(d.supported_part(d.candidates(seq![parts[k]])));
        }
    }
    if forall|k: int| #![trigger c[k]]
        0 <= k < parts.len() ==> exists|i: int|
            0 <= i < es.len() && search::has_choice((#[trigger] es[i]).parts, c[k]) {
        assert forall|k: int| 0 <= k < parts.len() implies d.supported_part(
            d.candidates(seq![#[trigger] parts[k]]),
        ) by {
            assert(c[k] == d.candidates(seq![parts[k]]));
        }
    }
}

/// A search for components of which one is not supported finds nothing.
pub proof fn law_unsupported_components_find_nothing(
    d: &Dictionary,
    parts: Seq<char>,
    exact: Seq<usize>,
    partial: Seq<usize>,
)
    requires
        d.wf(),
        !d.supported(parts),
        d.search_result(parts, exact, partial),
    ensures
        exact.len() == 0,
        partial.len() == 0,
{
    let es = d.list();
    let c = d.choices(parts);
    law_supported_components_are_used(d, parts);
    let k = choose|k: int| #![trigger c[k]]
        0 <= k < parts.len() && !exists|i: int|
            0 <= i < es.len() && search::has_choice((#[trigger] es[i]).parts, c[k]);
    law_exact_matches_fit(d, parts);
    law_partial_matches_fit(d, parts, exact, partial);
    if exact.len() > 0 {
        let i = d.exact_matches(parts).0[0];
        let own = es[i as int].parts;
        let sel = choose|sel: Seq<Seq<char>>| #[trigger]
            selects(sel, c) && sel.to_multiset() == own.to_multiset();
        assert(c[k].contains(sel[k]));
        let j = choose|j: int| 0 <= j < c[k].len() && c[k][j] == sel[k];
        sel.to_multiset_ensures();
        own.to_multiset_ensures();
        assert(sel.contains(sel[k]));
        assert(sel.to_multiset().count(sel[k]) > 0);
        assert(own.contains(c[k][j]));
        assert(search::has_choice(es[i as int].parts, c[k]));
    }
    if partial.len() > 0 {
        let i = partial[0];
        assert(search::has_choice(es[i as int].parts, c[k]));
    }
}

/// The characters of a text, each as a text of its own.
pub open spec fn singles(s: Seq<char>) -> Seq<Seq<char>> {
    s.map_values(|c: char| seq![c])
}

/// A search for the components of an entry, in any order, finds its character exactly, unless there
/// are as many exact matches as a search gives.
pub proof fn law_own_components_find_the_entry(d: &Dictionary, parts: Seq<char>, i: usize)
    requires
        d.wf(),
        i < d.list().len(),
        singles(parts).to_multiset() == d.list()[i as int].parts.to_multiset(),
    ensures
        d.exact_matches(parts).0.len() == MAX_RESULTS || has_word(
            d.list(),
            d.exact_matches(parts).0,
            d.list()[i as int].word,
        ),
{
    let sel = singles(parts);
    let c = d.choices(parts);
    assert forall|k: int| 0 <= k < c.len() implies (#[trigger] c[k]).contains(sel[k]) by {
        lemma_candidates(d, seq![parts[k]], sel[k]);
    }
    law_exact_matches_are_complete(d, parts, sel, i);
}

/// A component may be given in a variant form: where each of the given components is a component
/// of an entry or listed as its variant, the character of the entry is found exactly, unless there
/// are as many exact matches as a search gives.
pub proof fn law_variant_components_find_the_entry(
    d: &Dictionary,
    sources: &Sources,
    parts: Seq<char>,
    sel: Seq<Seq<char>>,
    i: usize,
)
    requires
        d.wf(),
        d.holds(sources),
        i < d.list().len(),
        sel.to_multiset() == d.list()[i as int].parts.to_multiset(),
        sel.len() == parts.len(),
        forall|k: int| 0 <= k < sel.len() ==> {
            ||| #[trigger] sel[k] == seq![parts[k]]
            ||| variants::sources_relate(
                seq![sources.jp_variants@, sources.component_variants@],
                sel[k],
                seq![parts[k]],
            )
            ||| variants::sources_relate(seq![sources.char_variants@], sel[k], seq![parts[k]])
        },
    ensures
        d.exact_matches(parts).0.len() == MAX_RESULTS || has_word(
            d.list(),
            d.exact_matches(parts).0,
            d.list()[i as int].word,
        ),
{
    let c = d.choices(parts);
    let a = seq![sources.jp_variants@, sources.component_variants@];
    let b = seq![sources.char_variants@];
    assert forall|k: int| 0 <= k < c.len() implies (#[trigger] c[k]).contains(sel[k]) by {
        let part = seq![parts[k]];
        let x = sel[k];
        variants::law_variants_are_those_listed(a, x, part);
        variants::law_variants_are_mutual(a, x, part);
        variants::law_variants_are_those_listed(b, x, part);
        variants::law_variants_are_mutual(b, x, part);
        lemma_candidates(d, part, x);
    }
    law_exact_matches_are_complete(d, parts, sel, i);
}

/// A selection for some components, rearranged for the same components in another order.
proof fn lemma_rearranged_selection(
    d: &Dictionary,
    a: Seq<char>,
    b: Seq<char>,
    sel: Seq<Seq<char>>,
) -> (r: Seq<Seq<char>>)
    requires
        a.to_multiset() == b.to_multiset(),
        selects(sel, d.choices(a)),
    ensures
        selects(r, d.choices(b)),
        r.to_multiset() == sel.to_multiset(),
    decreases b.len(),
{
    a.to_multiset_ensures();
    b.to_multiset_ensures();
    assert(a.len() == b.len());
    if b.len() == 0 {
        assert(d.choices(a) =~= d.choices(b));
        sel
    } else {
        assert(b.contains(b[0]));
        assert(b.to_multiset().count(b[0]) > 0);
        assert(a.contains(b[0]));
        let at = choose|at: int| 0 <= at < a.len() && a[at] == b[0];
        let a1 = a.remove(at);
        let b1 = b.remove(0);
        let sel1 = sel.remove(at);
        vstd::seq_lib::to_multiset_remove(a, at);
        vstd::seq_lib::to_multiset_remove(b, 0);
        let c = d.choices(a);
        let c1 = d.choices(a1);
        assert forall|k: int| 0 <= k < c1.len() implies (#[trigger] c1[k]).contains(sel1[k]) by {
            if k < at {
                assert(c[k].contains(sel[k]));
            } else {
                assert(c[k + 1].contains(sel[k + 1]));
            }
        }
        let tail = lemma_rearranged_selection(d, a1, b1, sel1);
        let r = tail.insert(0, sel[at]);
        assert(c[at].contains(sel[at]));
        assert forall|k: int| 0 <= k < d.choices(b).len() implies {
            (#[trigger] d.choices(b)[k]).contains(r[k])
        } by {
            if k > 0 {
                assert(d.choices(b1)[k - 1].contains(tail[k - 1]));
            }
        }
        vstd::seq_lib::to_multiset_insert(tail, 0, sel[at]);
        vstd::seq_lib::to_multiset_remove(sel, at);
        sel.to_multiset_ensures();
        assert(sel.contains(sel[at]));
        assert(sel.to_multiset().remove(sel[at]).insert(sel[at]) =~= sel.to_multiset());
        r
    }
}

/// The order in which components are given does not matter: what one order finds exactly, another
/// finds too, unless there are as many exact matches as a search gives.
pub proof fn law_order_of_components_is_irrelevant(
    d: &Dictionary,
    a: Seq<char>,
    b: Seq<char>,
    w: Seq<char>,
)
    requires
        d.wf(),
        a.to_multiset() == b.to_multiset(),
        has_word(d.list(), d.exact_matches(a).0, w),
    ensures
        d.exact_matches(b).0.len() == MAX_RESULTS || has_word(
            d.list(),
            d.exact_matches(b).0,
            w,
        ),
{
    let es = d.list();
    law_exact_matches_fit(d, a);
    let j = choose|j: int|
        0 <= j < d.exact_matches(a).0.len() && es[#[trigger] d.exact_matches(a).0[j] as int].word
            == w;
    let i = d.exact_matches(a).0[j];
    let sel = choose|sel: Seq<Seq<char>>| #[trigger]
        selects(sel, d.choices(a)) && sel.to_multiset() == es[i as int].parts.to_multiset();
    let other = lemma_rearranged_selection(d, a, b, sel);
    law_exact_matches_are_complete(d, b, other, i);
}

/// The positions of `s` with fewer than `bound` components, size after size.
spec fn buckets(es: Seq<EntryView>, s: Seq<usize>, bound: nat) -> Seq<usize>
    decreases bound,
{
    if bound == 0 {
        seq![]
    } else {
        buckets(es, s, (bound - 1) as nat) + rank::of_size(es, s, (bound - 1) as nat)
    }
}

proof fn lemma_buckets_push(es: Seq<EntryView>, s: Seq<usize>, x: usize, bound: nat)
    requires
        forall|i: int| 0 <= i < s.len() ==> size(es, #[trigger] s[i]) <= size(es, x),
    ensures
        buckets(es, s.push(x), bound) == if bound <= size(es, x) {
            buckets(es, s, bound)
        } else {
            buckets(es, s, bound).push(x)
        },
    decreases bound,
{
    if bound > 0 {
        let n = (bound - 1) as nat;
        let p = |i: usize| es[i as int].parts.len() == n;
        lemma_buckets_push(es, s, x, n);
        s.lemma_filter_push(x, p);
        if n > size(es, x) {
            s.lemma_all_neg_filter_empty(p);
        }
        assert(buckets(es, s.push(x), bound) =~= if bound <= size(es, x) {
            buckets(es, s, bound)
        } else {
            buckets(es, s, bound).push(x)
        });
    }
}

proof fn lemma_ascending_is_buckets(es: Seq<EntryView>, s: Seq<usize>, bound: nat)
    requires
        ascending(es, s),
        forall|i: int| 0 <= i < s.len() ==> size(es, #[trigger] s[i]) < bound,
    ensures
        buckets(es, s, bound) == s,
    decreases s.len(),
{
    if s.len() == 0 {
        lemma_buckets_empty(es, s, bound);
    } else {
        let rest = s.drop_last();
        let last = s.last();
        assert(rest.push(last) =~= s);
        assert forall|i: int| 0 <= i < rest.len() implies {
            size(es, #[trigger] rest[i]) < bound && size(es, rest[i]) <= size(es, last)
        } by {
            assert(rest[i] == s[i]);
            assert(last == s[s.len() - 1]);
        }
        assert(size(es, last) < bound) by {
            assert(last == s[s.len() - 1]);
        }
        assert(ascending(es, rest)) by {
            assert forall|i: int| 0 <= i < rest.len() implies rest[i] == s[i] by {}
        }
        lemma_ascending_is_buckets(es, rest, bound);
        lemma_buckets_push(es, rest, last, bound);
    }
}

proof fn lemma_buckets_empty(es: Seq<EntryView>, s: Seq<usize>, bound: nat)
    requires
        s.len() == 0,
    ensures
        buckets(es, s, bound) == s,
    decreases bound,
{
    reveal(Seq::filter);
    if bound > 0 {
        lemma_buckets_empty(es, s, (bound - 1) as nat);
    }
    assert(buckets(es, s, bound) =~= s);
}

proof fn lemma_same_buckets(es: Seq<EntryView>, s: Seq<usize>, t: Seq<usize>, bound: nat)
    requires
        forall|n: nat| #[trigger] rank::of_size(es, s, n) == rank::of_size(es, t, n),
    ensures
        buckets(es, s, bound) == buckets(es, t, bound),
    decreases bound,
{
    if bound > 0 {
        lemma_same_buckets(es, s, t, (bound - 1) as nat);
        assert(rank::of_size(es, s, (bound - 1) as nat) == rank::of_size(
            es,
            t,
            (bound - 1) as nat,
        ));
    }
}

proof fn lemma_size_bound(es: Seq<EntryView>, s: Seq<usize>) -> (bound: nat)
    ensures
        forall|i: int| 0 <= i < s.len() ==> size(es, #[trigger] s[i]) < bound,
    decreases s.len(),
{
    if s.len() == 0 {
        0
    } else {
        let b = lemma_size_bound(es, s.drop_last());
        let n = size(es, s.last());
        let bound = if b > n {
            b
        } else {
            n + 1
        };
        assert forall|i: int| 0 <= i < s.len() implies size(es, #[trigger] s[i]) < bound by {
            if i < s.len() - 1 {
                assert(s.drop_last()[i] == s[i]);
            }
        }
        bound
    }
}

/// What is filed under some choice are positions of entries.
proof fn lemma_made_of_in_range(d: &Dictionary, c: Seq<Seq<Seq<char>>>, chosen: Seq<Seq<char>>)
    requires
        d.keys_in_range(),
    ensures
        forall|j: int|
            0 <= j < d.made_of(c, chosen).len() ==> #[trigger] d.made_of(c, chosen)[j]
                < d.list().len(),
    decreases c.len(), c[0].len() + 1,
{
    let all = d.made_of(c, chosen);
    if c.len() > 0 {
        lemma_made_of_first_in_range(d, c, chosen, c[0].len());
        assert(all == d.made_of_first(c, chosen, c[0].len()));
    } else {
        let filed = dictionary::filed(d.exact@, key::key_of(chosen));
        assert(all == filed);
        assert forall|j: int| 0 <= j < all.len() implies #[trigger] all[j] < d.list().len() by {
            assert(filed[j] < d.list().len());
        }
    }
}

proof fn lemma_made_of_first_in_range(
    d: &Dictionary,
    c: Seq<Seq<Seq<char>>>,
    chosen: Seq<Seq<char>>,
    n: nat,
)
    requires
        d.keys_in_range(),
    ensures
        forall|j: int|
            0 <= j < d.made_of_first(c, chosen, n).len() ==> #[trigger] d.made_of_first(
                c,
                chosen,
                n,
            )[j] < d.list().len(),
    decreases c.len(), n,
{
    if n > 0 && c.len() > 0 {
        let before = d.made_of_first(c, chosen, (n - 1) as nat);
        let last = d.made_of(c.skip(1), chosen.push(c[0][n - 1]));
        lemma_made_of_first_in_range(d, c, chosen, (n - 1) as nat);
        lemma_made_of_in_range(d, c.skip(1), chosen.push(c[0][n - 1]));
        assert forall|j: int| 0 <= j < (before + last).len() implies #[trigger] (before + last)[j]
            < d.list().len() by {
            if j >= before.len() {
                assert((before + last)[j] == last[j - before.len()]);
            }
        }
    }
}

/// The results of a search are positions of entries.
pub proof fn lemma_results_in_range(
    d: &Dictionary,
    parts: Seq<char>,
    exact: Seq<usize>,
    partial: Seq<usize>,
)
    requires
        d.keys_in_range(),
        d.search_result(parts, exact, partial),
    ensures
        forall|j: int| 0 <= j < exact.len() ==> exact[j] < d.list().len(),
        forall|j: int| 0 <= j < partial.len() ==> partial[j] < d.list().len(),
{
    let es = d.list();
    let c = d.choices(parts);
    let seen = d.exact_matches(parts).1;
    let all = d.made_of(c, seq![]);
    let order = choose|order: Seq<usize>| #[trigger]
        d.lists_left(c, seen, order) && rank::ranked(es, order, partial);
    let sorted = choose|sorted: Seq<usize>| #[trigger]
        rank::sorted_by_size(es, order, sorted) && partial == rank::pick(
            es,
            seq![],
            Set::empty(),
            sorted,
        ).0;
    lemma_pick(es, seq![], Set::empty(), all);
    lemma_pick(es, seq![], Set::empty(), sorted);
    lemma_made_of_in_range(d, c, seq![]);
    assert forall|j: int| 0 <= j < exact.len() implies exact[j] < es.len() by {
        assert(all.contains(exact[j]));
    }
    assert forall|j: int| 0 <= j < partial.len() implies partial[j] < es.len() by {
        assert(sorted.contains(partial[j]));
        lemma_sorted_members(es, order, sorted, partial[j]);
        assert(order.contains(partial[j]));
    }
}

/// Components in another order leave the same choices.
proof fn lemma_same_choices(d: &Dictionary, a: Seq<char>, b: Seq<char>, p: Seq<Seq<char>>)
    requires
        a.to_multiset() == b.to_multiset(),
        search::has_choices(p, d.choices(a)),
    ensures
        search::has_choices(p, d.choices(b)),
{
    a.to_multiset_ensures();
    b.to_multiset_ensures();
    assert forall|k: int| 0 <= k < d.choices(b).len() implies search::has_choice(
        p,
        #[trigger] d.choices(b)[k],
    ) by {
        assert(b.contains(b[k]));
        assert(b.to_multiset().count(b[k]) > 0);
        assert(a.contains(b[k]));
        let at = choose|at: int| 0 <= at < a.len() && a[at] == b[k];
        assert(search::has_choice(p, d.choices(a)[at]));
    }
}

/// The order in which components are given does not matter for partial matches either: those of one
/// order are partial matches of another, unless one of them gives as many exact matches as a search
/// gives.
pub proof fn law_order_is_irrelevant_for_partial_matches(
    d: &Dictionary,
    a: Seq<char>,
    b: Seq<char>,
    partial: Seq<usize>,
)
    requires
        d.wf(),
        a.to_multiset() == b.to_multiset(),
        d.exact_matches(a).0.len() < MAX_RESULTS,
        d.exact_matches(b).0.len() < MAX_RESULTS,
        d.search_result(a, d.exact_matches(a).0, partial),
    ensures
        d.search_result(b, d.exact_matches(b).0, partial),
{
    let es = d.list();
    let (xa, sa) = d.exact_matches(a);
    let (xb, sb) = d.exact_matches(b);
    a.to_multiset_ensures();
    b.to_multiset_ensures();
    assert(a.len() == b.len());
    lemma_pick(es, seq![], Set::empty(), d.made_of(d.choices(a), seq![]));
    lemma_pick(es, seq![], Set::empty(), d.made_of(d.choices(b), seq![]));
    assert forall|w: Seq<char>| sa.contains(w) <==> sb.contains(w) by {
        if sa.contains(w) {
            assert(has_word(es, xa, w));
            law_order_of_components_is_irrelevant(d, a, b, w);
        }
        if sb.contains(w) {
            assert(has_word(es, xb, w));
            law_order_of_components_is_irrelevant(d, b, a, w);
        }
    }
    assert(sa =~= sb);
    let order = choose|order: Seq<usize>| #[trigger]
        d.lists_left(d.choices(a), sa, order) && rank::ranked(es, order, partial);
    assert forall|i: usize| #[trigger] order.contains(i) <==> d.left(d.choices(b), sb, i) by {
        let p = es[i as int].parts;
        if search::has_choices(p, d.choices(a)) {
            lemma_same_choices(d, a, b, p);
        }
        if search::has_choices(p, d.choices(b)) {
            lemma_same_choices(d, b, a, p);
        }
        assert(order.contains(i) <==> d.left(d.choices(a), sa, i));
    }
    assert(d.lists_left(d.choices(b), sb, order));
}

/// One order of finding entries leads to one ranking.
pub proof fn law_ranking_is_determined(
    es: Seq<EntryView>,
    order: Seq<usize>,
    r1: Seq<usize>,
    r2: Seq<usize>,
)
    requires
        rank::ranked(es, order, r1),
        rank::ranked(es, order, r2),
    ensures
        r1 == r2,
{
    let s1 = choose|s: Seq<usize>| #[trigger]
        rank::sorted_by_size(es, order, s) && r1 == rank::pick(es, seq![], Set::empty(), s).0;
    let s2 = choose|s: Seq<usize>| #[trigger]
        rank::sorted_by_size(es, order, s) && r2 == rank::pick(es, seq![], Set::empty(), s).0;
    let b1 = lemma_size_bound(es, s1);
    let b2 = lemma_size_bound(es, s2);
    let bound = b1 + b2;
    assert forall|n: nat| #[trigger] rank::of_size(es, s1, n) == rank::of_size(es, s2, n) by {
        assert(rank::of_size(es, s1, n) == rank::of_size(es, order, n));
        assert(rank::of_size(es, s2, n) == rank::of_size(es, order, n));
    }
    lemma_ascending_is_buckets(es, s1, bound);
    lemma_ascending_is_buckets(es, s2, bound);
    lemma_same_buckets(es, s1, s2, bound);
}

/// A loaded dictionary knows the grades of the character lists and no others, and has the list of
/// each.
pub proof fn law_loaded_grades_are_the_lists(d: &Dictionary, sources: &Sources, grade: Seq<char>)
    requires
        d.holds(sources),
    ensures
        d.grades@.contains_key(grade) <==> grades::grade_texts(sources.grades).contains_key(grade),
        d.grades@.contains_key(grade) ==> d.grades@[grade]@ == grades::grade_texts(
            sources.grades,
        )[grade],
{
    let m = grades::text_views(d.grades@);
    assert(m.contains_key(grade) <==> d.grades@.contains_key(grade));
}

/// Each position is smaller than those after it.
pub open spec fn increasing(s: Seq<usize>) -> bool {
    forall|i: int, j: int| 0 <= i < j < s.len() ==> #[trigger] s[i] < #[trigger] s[j]
}

proof fn lemma_filed_increasing(es: Seq<EntryView>, k: Seq<char>)
    requires
        es.len() <= usize::MAX,
    ensures
        increasing(dictionary::with_key(es, k)),
        increasing(dictionary::with_part(es, k)),
    decreases es.len(),
{
    if es.len() > 0 {
        let rest = es.drop_last();
        let keyed = dictionary::with_key(rest, k);
        let having = dictionary::with_part(rest, k);
        lemma_filed_increasing(rest, k);
        assert forall|j: int| 0 <= j < keyed.len() implies #[trigger] keyed[j] < rest.len() by {
            dictionary::lemma_with_key(rest, k, keyed[j]);
            assert(keyed.contains(keyed[j]));
        }
        assert forall|j: int| 0 <= j < having.len() implies #[trigger] having[j] < rest.len() by {
            dictionary::lemma_with_part(rest, k, having[j]);
            assert(having.contains(having[j]));
        }
    }
}

/// The position of an entry is filed under its component key and under each of its components, and
/// nowhere else in these indexes. No list in them is empty, and each is in increasing order.
pub proof fn law_indexes_list_the_entries(d: &Dictionary, k: Seq<char>, i: usize)
    requires
        d.wf(),
    ensures
        dictionary::filed(d.exact@, k).contains(i) <==> i < d.list().len() && key::key_of(
            d.list()[i as int].parts,
        ) == k,
        dictionary::filed(d.by_part@, k).contains(i) <==> i < d.list().len()
            && d.list()[i as int].parts.contains(k),
        increasing(dictionary::filed(d.exact@, k)),
        increasing(dictionary::filed(d.by_part@, k)),
        d.exact@.contains_key(k) ==> dictionary::filed(d.exact@, k).len() > 0,
        d.by_part@.contains_key(k) ==> dictionary::filed(d.by_part@, k).len() > 0,
{
    let es = d.list();
    assert(es.len() == d.entries.len());
    assert(dictionary::filed(d.exact@, k) == dictionary::with_key(es, k));
    assert(dictionary::filed(d.by_part@, k) == dictionary::with_part(es, k));
    dictionary::lemma_with_key(es, k, i);
    dictionary::lemma_with_part(es, k, i);
    lemma_filed_increasing(es, k);
}

/// The positions that are filed under each key.
pub open spec fn position_lists(m: Map<Seq<char>, Vec<usize>>) -> Map<Seq<char>, Seq<usize>> {
    m.map_values(|v: Vec<usize>| v@)
}

proof fn lemma_same_lists(a: Map<Seq<char>, Vec<usize>>, b: Map<Seq<char>, Vec<usize>>)
    requires
        forall|k: Seq<char>| #[trigger] a.contains_key(k) ==> dictionary::filed(a, k).len() > 0,
        forall|k: Seq<char>| #[trigger] b.contains_key(k) ==> dictionary::filed(b, k).len() > 0,
        forall|k: Seq<char>| #[trigger] dictionary::filed(a, k) == dictionary::filed(b, k),
    ensures
        position_lists(a) == position_lists(b),
{
    let m = position_lists(a);
    let n = position_lists(b);
    assert forall|k: Seq<char>| m.contains_key(k) <==> n.contains_key(k) by {
        assert(dictionary::filed(a, k) == dictionary::filed(b, k));
        assert(m.contains_key(k) <==> a.contains_key(k));
        assert(n.contains_key(k) <==> b.contains_key(k));
    }
    assert forall|k: Seq<char>| m.contains_key(k) implies m[k] == n[k] by {
        assert(dictionary::filed(a, k) == dictionary::filed(b, k));
    }
    assert(m =~= n);
}

/// A dictionary depends on its data files alone: two that hold what the same texts list are equal
/// in every field.
pub proof fn law_loads_of_one_source_are_equal(a: &Dictionary, b: &Dictionary, sources: &Sources)
    requires
        a.wf(),
        b.wf(),
        a.holds(sources),
        b.holds(sources),
    ensures
        a.list() == b.list(),
        position_lists(a.exact@) == position_lists(b.exact@),
        position_lists(a.by_part@) == position_lists(b.by_part@),
        a.by_word@ == b.by_word@,
        variants::lists(a.component_variants@) == variants::lists(b.component_variants@),
        variants::lists(a.char_variants@) == variants::lists(b.char_variants@),
        structure::structure_views(a.structures@) == structure::structure_views(b.structures@),
        a.strokes@ == b.strokes@,
        a.phrases.deep_view() == b.phrases.deep_view(),
        grades::text_views(a.grades@) == grades::text_views(b.grades@),
{
    let es = a.list();
    assert forall|k: Seq<char>| #[trigger]
        dictionary::filed(a.exact@, k) == dictionary::filed(b.exact@, k) by {
        assert(dictionary::filed(b.exact@, k) == dictionary::with_key(es, k));
    }
    assert forall|k: Seq<char>| #[trigger]
        dictionary::filed(a.by_part@, k) == dictionary::filed(b.by_part@, k) by {
        assert(dictionary::filed(b.by_part@, k) == dictionary::with_part(es, k));
    }
    lemma_same_lists(a.exact@, b.exact@);
    lemma_same_lists(a.by_part@, b.by_part@);
    assert forall|w: Seq<char>| #[trigger]
        dictionary::filed_one(a.by_word@, w) == dictionary::filed_one(b.by_word@, w) by {
        assert(dictionary::filed_one(b.by_word@, w) == dictionary::first_of(es, w));
    }
    assert forall|w: Seq<char>| a.by_word@.contains_key(w) <==> b.by_word@.contains_key(w) by {
        assert(dictionary::filed_one(a.by_word@, w) == dictionary::filed_one(b.by_word@, w));
    }
    assert forall|w: Seq<char>| a.by_word@.contains_key(w) implies a.by_word@[w]
        == b.by_word@[w] by {
        assert(dictionary::filed_one(a.by_word@, w) == dictionary::filed_one(b.by_word@, w));
    }
    assert(a.by_word@ =~= b.by_word@);
}

} // verus!
