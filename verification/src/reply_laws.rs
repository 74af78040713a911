//! What the replies of the service say of characters.

use vstd::prelude::*;

use crate::api::{self, PinyinCharacter, SearchResponse};
use crate::character::{self, CharacterWord};
use crate::codepoint;
use crate::dictionary::{self, Dictionary, EntryView};
use crate::distinct;
use crate::han;
use crate::http::{self, ApiError, Header, Refusal};
use crate::number;
use crate::reading;
use crate::search_laws;
use crate::telemetry::{self, Attribute, AttributeValue};
use crate::text;
use crate::text_laws;
use crate::variants;
use crate::words::{self, Word};

verus! {

/// Where the table has a pinyin, it is given as it is; where it has none, nothing is given. The
/// pinyin of a text is that of its first character.
pub proof fn law_pinyin_is_that_of_the_table(
    c: char,
    rest: Seq<char>,
    some: Option<Seq<char>>,
    p: Seq<char>,
)
    ensures
        some == Some(p) ==> reading::blank_or(some) == p,
        some is None ==> reading::blank_or(some) == Seq::<char>::empty(),
        reading::toned_pinyin(c) == Some(p) ==> reading::first_pinyin(seq![c] + rest) == p,
        reading::toned_pinyin(c) is None ==> reading::first_pinyin(seq![c] + rest) == Seq::<
            char,
        >::empty(),
        reading::first_pinyin(seq![]) == Seq::<char>::empty(),
{
    assert((seq![c] + rest)[0] == c);
}

/// A description of an entry has its character and components and the given pinyin. Its code point
/// is read back as the first character, and it has the address of the drawing of that character.
pub proof fn law_descriptions_are_of_their_entries(
    d: &Dictionary,
    e: EntryView,
    pinyin: Seq<char>,
)
    ensures
        d.described(e, pinyin).word == e.word,
        d.described(e, pinyin).pinyin == pinyin,
        d.described(e, pinyin).parts == e.parts,
        d.entry_word(e) == d.described(e, reading::first_pinyin(e.word)),
        e.word.len() > 0 ==> codepoint::codepoint_text(d.described(e, pinyin).codepoint) == Some(
            seq![e.word[0]],
        ),
        e.word.len() > 0 ==> d.described(e, pinyin).codepoint == codepoint::codepoint_label(
            e.word[0],
        ),
        e.word.len() > 0 ==> d.described(e, pinyin).glyph_url == codepoint::glyph_address(
            e.word[0],
        ),
        e.word.len() == 0 ==> d.described(e, pinyin).codepoint.len() == 0
            && d.described(e, pinyin).glyph_url is None,
{
    if e.word.len() > 0 {
        codepoint::law_label_is_read_back(e.word[0]);
    }
}

/// The composition of a character is given exactly where it has one whose parts are not, text by
/// text, the components of the entry; then its name and its parts are given.
pub proof fn law_compositions_are_given_where_they_differ(
    d: &Dictionary,
    e: EntryView,
    pinyin: Seq<char>,
)
    ensures
        !d.structures@.contains_key(e.word) ==> d.described(e, pinyin).structure is None
            && d.described(e, pinyin).simple_parts.len() == 0,
        d.structures@.contains_key(e.word) ==> {
            let s = d.structures@[e.word];
            let same = s.parts@.len() == e.parts.len() && forall|i: int|
                0 <= i < e.parts.len() ==> (#[trigger] s.parts@[i])@ == e.parts[i];
            &&& same ==> d.described(e, pinyin).structure is None && d.described(
                e,
                pinyin,
            ).simple_parts.len() == 0
            &&& !same ==> d.described(e, pinyin).structure == Some(s.name@)
            &&& !same ==> d.described(e, pinyin).simple_parts.len() == s.parts@.len()
            &&& !same ==> forall|i: int|
                0 <= i < s.parts@.len() ==> (#[trigger] d.described(e, pinyin).simple_parts[i])
                    == s.parts@[i]@
        },
{
    if d.structures@.contains_key(e.word) {
        let s = d.structures@[e.word];
        let p = s.parts.deep_view();
        assert(p.len() == s.parts@.len());
        assert forall|i: int| #![trigger s.parts@[i]] 0 <= i < p.len() implies p[i]
            == s.parts@[i]@ by {}
        if s.parts@.len() == e.parts.len() && forall|i: int|
            0 <= i < e.parts.len() ==> (#[trigger] s.parts@[i])@ == e.parts[i] {
            assert(p =~= e.parts) by {
                assert forall|i: int| 0 <= i < p.len() implies p[i] == e.parts[i] by {
                    assert(s.parts@[i]@ == e.parts[i]);
                }
            }
        }
        if p == e.parts {
            assert forall|i: int| 0 <= i < e.parts.len() implies (#[trigger] s.parts@[i])@
                == e.parts[i] by {
                assert(p[i] == s.parts@[i]@);
            }
        }
    }
}

/// A character is described by its first entry; one without entry has its own text, pinyin and
/// code point, and nothing else.
pub proof fn law_characters_are_described_by_their_first_entry(
    d: &Dictionary,
    w: Seq<char>,
    i: int,
)
    requires
        d.wf(),
    ensures
        0 <= i < d.list().len() && d.list()[i].word == w && (forall|j: int|
            0 <= j < i ==> (#[trigger] d.list()[j]).word != w) ==> d.char_word(w) == d.described(
            d.list()[i],
            reading::first_pinyin(w),
        ),
        (forall|j: int| 0 <= j < d.list().len() ==> (#[trigger] d.list()[j]).word != w) ==> {
            &&& d.char_word(w).word == w
            &&& d.char_word(w).pinyin == reading::first_pinyin(w)
            &&& d.char_word(w).parts.len() == 0
            &&& d.char_word(w).structure is None
            &&& d.char_word(w).simple_parts.len() == 0
            &&& w.len() > 0 ==> d.char_word(w).codepoint == codepoint::codepoint_label(w[0])
            &&& w.len() > 0 ==> d.char_word(w).glyph_url == codepoint::glyph_address(w[0])
            &&& w.len() == 0 ==> d.char_word(w).codepoint.len() == 0
            &&& w.len() == 0 ==> d.char_word(w).glyph_url is None
        },
{
    assert(d.list().len() == d.entries.len());
    dictionary::lemma_first_of(d.list(), w);
    assert(dictionary::filed_one(d.by_word@, w) == dictionary::first_of(d.list(), w));
    match dictionary::first_of(d.list(), w) {
        Some(k) => {
            assert(d.list()[k as int].word == w);
        },
        None => {},
    }
}

/// The variants of a character are those listed for it, in their order, and the first twenty of
/// them are given.
pub proof fn law_twenty_variants_are_given(d: &Dictionary, w: Seq<char>)
    ensures
        !d.char_variants@.contains_key(w) ==> d.variants_of_char(w).len() == 0,
        d.char_variants@.contains_key(w) ==> d.variants_of_char(w).len()
            == d.char_variants@[w]@.len() && forall|j: int|
            0 <= j < d.variants_of_char(w).len() ==> #[trigger] d.variants_of_char(w)[j]
                == d.char_variants@[w]@[j]@,
        d.variants_of_char(w).len() <= 20 ==> d.first_variants(w) == d.variants_of_char(w),
        d.variants_of_char(w).len() > 20 ==> d.first_variants(w).len() == 20
            && d.first_variants(w).is_prefix_of(d.variants_of_char(w)),
{
    let all = d.variants_of_char(w);
    let m = variants::lists(d.char_variants@);
    assert(m.contains_key(w) <==> d.char_variants@.contains_key(w));
    if d.char_variants@.contains_key(w) {
        let l = d.char_variants@[w].deep_view();
        assert(m[w] == l);
        assert forall|j: int| 0 <= j < all.len() implies #[trigger] all[j]
            == d.char_variants@[w]@[j]@ by {}
    }
    if all.len() > 20 {
        assert(d.first_variants(w) =~= all.subrange(0, 20));
    }
}

/// The variants of matches come match by match.
pub proof fn law_variants_come_match_by_match(
    d: &Dictionary,
    a: Seq<usize>,
    b: Seq<usize>,
    i: usize,
)
    ensures
        d.variants_at(seq![]) == Seq::<Seq<char>>::empty(),
        d.variants_at(seq![i]) == d.variants_of_char(d.list()[i as int].word),
        d.variants_at(a + b) == d.variants_at(a) + d.variants_at(b),
    decreases b.len(),
{
    let none = Seq::<usize>::empty();
    assert(seq![i].drop_last() =~= none);
    assert(d.variants_at(none) =~= seq![]);
    assert(d.variants_at(seq![i]) =~= d.variants_of_char(d.list()[i as int].word));
    if b.len() == 0 {
        assert(a + b =~= a);
    } else {
        law_variants_come_match_by_match(d, a, b.drop_last(), i);
        assert((a + b).drop_last() =~= a + b.drop_last());
        assert((a + b).last() == b.last());
    }
    assert(d.variants_at(a + b) =~= d.variants_at(a) + d.variants_at(b));
}

/// A variant of an exact match that is no match itself is added, unless there are twenty of them.
/// Of two that are added, the one that comes first among the variants of the exact matches comes
/// first.
pub proof fn law_variants_beyond_the_matches_are_added(
    d: &Dictionary,
    exact: Seq<usize>,
    partial: Seq<usize>,
    k: int,
    x: Seq<char>,
    i: int,
    j: int,
)
    requires
        0 <= k < exact.len(),
        d.variants_of_char(d.list()[exact[k] as int].word).contains(x),
        forall|m: int|
            0 <= m < exact.len() ==> d.list()[#[trigger] exact[m] as int].word != x,
        forall|m: int|
            0 <= m < partial.len() ==> d.list()[#[trigger] partial[m] as int].word != x,
    ensures
        d.further_variants(exact, partial).len() <= 20,
        d.further_variants(exact, partial).contains(x) || d.further_variants(exact, partial).len()
            == 20,
        0 <= i < j < d.further_variants(exact, partial).len() ==> exists|a: int|
            0 <= a < d.variants_at(exact).len() && #[trigger] d.variants_at(exact)[a]
                == d.further_variants(exact, partial)[i] && forall|b: int|
                0 <= b < d.variants_at(exact).len() && #[trigger] d.variants_at(exact)[b]
                    == d.further_variants(exact, partial)[j] ==> a < b,
{
    let known = words::words_at(d.list(), exact + partial);
    let p = |x: Seq<char>| !known.contains(x);
    let stream = d.variants_at(exact);
    let kept = stream.filter(p);
    let r = d.further_variants(exact, partial);
    distinct::law_first_distinct(kept, 20);
    lemma_in_stream(d, exact, k, x);
    assert(!known.contains(x)) by {
        let f = |i: usize| d.list()[i as int].word;
        let all = (exact + partial).map_values(f);
        if known.contains(x) {
            assert(all.to_set().contains(x));
            assert(all.contains(x));
            let m = choose|m: int| 0 <= m < all.len() && all[m] == x;
            if m < exact.len() {
                assert(d.list()[exact[m] as int].word == x);
            } else {
                assert(d.list()[partial[m - exact.len()] as int].word == x);
            }
        }
    }
    let at = choose|at: int| 0 <= at < stream.len() && stream[at] == x;
    stream.lemma_filter_contains(p, at);
    assert(kept.contains(x));
    if 0 <= i < j < r.len() {
        text_laws::law_distinct_texts_keep_their_order(kept, 20, i, j);
        let a = choose|a: int|
            0 <= a < kept.len() && #[trigger] kept[a] == r[i] && (forall|b: int|
                0 <= b < kept.len() && #[trigger] kept[b] == r[j] ==> a < b);
        assert(r.contains(r[j]));
        lemma_first_in_filter(stream, p, r[i], r[j], a);
    }
}

proof fn lemma_in_stream(d: &Dictionary, exact: Seq<usize>, k: int, x: Seq<char>)
    requires
        0 <= k < exact.len(),
        d.variants_of_char(d.list()[exact[k] as int].word).contains(x),
    ensures
        d.variants_at(exact).contains(x),
{
    let before = exact.take(k);
    let here = seq![exact[k]];
    let after = exact.skip(k + 1);
    assert(exact =~= before + here + after);
    law_variants_come_match_by_match(d, before, here, exact[k]);
    law_variants_come_match_by_match(d, before + here, after, exact[k]);
    let mine = d.variants_at(here);
    let m = choose|m: int| 0 <= m < mine.len() && mine[m] == x;
    assert(d.variants_at(exact)[d.variants_at(before).len() + m] == x);
}

/// What comes first in a filtered list came first before.
proof fn lemma_first_in_filter(
    s: Seq<Seq<char>>,
    p: spec_fn(Seq<char>) -> bool,
    x: Seq<char>,
    y: Seq<char>,
    a: int,
)
    requires
        0 <= a < s.filter(p).len(),
        s.filter(p)[a] == x,
        s.filter(p).contains(y),
        forall|b: int| 0 <= b < s.filter(p).len() && #[trigger] s.filter(p)[b] == y ==> a < b,
    ensures
        exists|c: int|
            0 <= c < s.len() && #[trigger] s[c] == x && forall|b: int|
                0 <= b < s.len() && #[trigger] s[b] == y ==> c < b,
    decreases s.len(),
{
    reveal(Seq::filter);
    let t = s.drop_last();
    let z = s.last();
    let f = t.filter(p);
    if a < f.len() {
        assert(f[a] == x);
        if f.contains(y) {
            assert forall|b: int| 0 <= b < f.len() && #[trigger] f[b] == y implies a < b by {
                assert(s.filter(p)[b] == y);
            }
            lemma_first_in_filter(t, p, x, y, a);
            let c = choose|c: int|
                0 <= c < t.len() && #[trigger] t[c] == x && forall|b: int|
                    0 <= b < t.len() && #[trigger] t[b] == y ==> c < b;
            assert(s[c] == x);
            assert forall|b: int| 0 <= b < s.len() && #[trigger] s[b] == y implies c < b by {
                if b < t.len() {
                    assert(t[b] == y);
                }
            }
        } else {
            assert(f.contains(x));
            t.lemma_filter_contains_rev(p, x);
            let c = choose|c: int| 0 <= c < t.len() && t[c] == x;
            assert(s[c] == x);
            s.lemma_filter_contains_rev(p, y);
            assert forall|b: int| 0 <= b < s.len() && #[trigger] s[b] == y implies c < b by {
                if b < t.len() {
                    assert(t[b] == y);
                    t.lemma_filter_contains(p, b);
                }
            }
        }
    } else {
        let b = choose|b: int| 0 <= b < s.filter(p).len() && s.filter(p)[b] == y;
        assert(a < b);
    }
}

/// Among two different texts and more, the first is the first of all, and the second the first
/// that is not like it.
proof fn lemma_two_distinct(s: Seq<Seq<char>>, k: int)
    requires
        0 < k <= s.len(),
        forall|i: int| 0 <= i < k ==> #[trigger] s[i] == s[0],
        k < s.len() ==> s[k] != s[0],
    ensures
        distinct::first_distinct(s, 2)[0] == s[0],
        k == s.len() ==> distinct::first_distinct(s, 2).len() == 1,
        k < s.len() ==> distinct::first_distinct(s, 2).len() == 2 && distinct::first_distinct(
            s,
            2,
        )[1] == s[k],
{
    let none = Seq::<Seq<char>>::empty();
    let a = s.take(k);
    lemma_all_alike(a, s[0]);
    if k < s.len() {
        let b = a.push(s[k]);
        a.lemma_remove_duplicates_append(s[k], none);
        a.lemma_remove_duplicates_properties(none);
        assert(a + none =~= a);
        assert(a + seq![s[k]] =~= b);
        assert(!a.contains(s[k])) by {
            if a.contains(s[k]) {
                let i = choose|i: int| 0 <= i < a.len() && a[i] == s[k];
                assert(s[i] == s[0]);
            }
        }
        assert(b.remove_duplicates(none) =~= seq![s[0], s[k]]);
        assert(b + s.skip(k + 1) =~= s);
        distinct::lemma_first_distinct_full(b, s.skip(k + 1), 2);
    } else {
        assert(a =~= s);
    }
}

proof fn lemma_all_alike(s: Seq<Seq<char>>, x: Seq<char>)
    requires
        s.len() > 0,
        forall|i: int| 0 <= i < s.len() ==> #[trigger] s[i] == x,
    ensures
        s.remove_duplicates(seq![]) == seq![x],
    decreases s.len(),
{
    let none = Seq::<Seq<char>>::empty();
    let t = s.drop_last();
    t.lemma_remove_duplicates_append(x, none);
    t.lemma_remove_duplicates_properties(none);
    assert(t + none =~= t);
    assert(t + seq![x] =~= s);
    if t.len() > 0 {
        lemma_all_alike(t, x);
        assert(t.contains(t[0]));
    } else {
        assert(t =~= none);
        assert(none.remove_duplicates(none) =~= none);
        assert(none + seq![x] =~= seq![x]);
    }
}

/// Where in a filtered list an element is that passes the filter.
proof fn lemma_filter_place(s: Seq<Seq<char>>, p: spec_fn(Seq<char>) -> bool, i: int)
    requires
        0 <= i < s.len(),
        p(s[i]),
    ensures
        s.take(i).filter(p).len() < s.filter(p).len(),
        s.filter(p)[s.take(i).filter(p).len() as int] == s[i],
        s.take(i).filter(p).is_prefix_of(s.filter(p)),
{
    let a = s.take(i);
    let b = s.skip(i + 1);
    assert(s =~= a.push(s[i]) + b);
    a.lemma_filter_push(s[i], p);
    Seq::filter_distributes_over_add(a.push(s[i]), b, p);
    assert(s.filter(p) =~= a.filter(p).push(s[i]) + b.filter(p));
    assert(a.filter(p) =~= s.filter(p).subrange(0, a.filter(p).len() as int));
}

/// A filtered list of elements that are alike where they pass.
proof fn lemma_filter_alike(s: Seq<Seq<char>>, p: spec_fn(Seq<char>) -> bool, x: Seq<char>)
    requires
        forall|i: int| 0 <= i < s.len() && p(#[trigger] s[i]) ==> s[i] == x,
    ensures
        forall|i: int| 0 <= i < s.filter(p).len() ==> #[trigger] s.filter(p)[i] == x,
{
    assert forall|i: int| 0 <= i < s.filter(p).len() implies #[trigger] s.filter(p)[i] == x by {
        let y = s.filter(p)[i];
        s.lemma_filter_pred(p, i);
        assert(s.filter(p).contains(y));
        s.lemma_filter_contains_rev(p, y);
        let k = choose|k: int| 0 <= k < s.len() && s[k] == y;
        assert(p(s[k]));
    }
}

proof fn lemma_with_text_filters(
    phrases: Seq<Seq<char>>,
    c: Seq<char>,
    first: bool,
    f: spec_fn(Seq<char>) -> bool,
)
    requires
        forall|x: Seq<char>| #[trigger]
            f(x) == if first {
                c.is_prefix_of(x)
            } else {
                text::occurs_in(x, c)
            },
    ensures
        character::with_text(phrases, c, first) == phrases.filter(f),
{
    let h = |p: Seq<char>|
        if first {
            c.is_prefix_of(p)
        } else {
            text::occurs_in(p, c)
        };
    assert(h =~= f);
}

/// The first phrase of a character is the first one in the dictionary that starts with it, or where
/// none does, the first one that has it. Without any, both are empty.
pub proof fn law_the_first_phrase_is_the_first_in_the_list(d: &Dictionary, c: Seq<char>, i: int)
    ensures
        d.phrases_with(c).len() == 2,
        ({
            let p = d.phrases.deep_view();
            &&& 0 <= i < p.len() && c.is_prefix_of(p[i]) && (forall|k: int|
                0 <= k < i ==> !c.is_prefix_of(#[trigger] p[k])) ==> d.phrases_with(c)[0] == p[i]
            &&& 0 <= i < p.len() && text::occurs_in(p[i], c) && (forall|k: int|
                0 <= k < i ==> !text::occurs_in(#[trigger] p[k], c)) && (forall|k: int|
                0 <= k < p.len() ==> !c.is_prefix_of(#[trigger] p[k])) ==> d.phrases_with(c)[0]
                == p[i]
            &&& (forall|k: int| 0 <= k < p.len() ==> !text::occurs_in(#[trigger] p[k], c))
                ==> d.phrases_with(c)[0].len() == 0 && d.phrases_with(c)[1].len() == 0
        }),
{
    let p = d.phrases.deep_view();
    let f = |x: Seq<char>| c.is_prefix_of(x);
    let g = |x: Seq<char>| text::occurs_in(x, c);
    let starting = character::with_text(p, c, true);
    let having = character::with_text(p, c, false);
    lemma_with_text_filters(p, c, true, f);
    lemma_with_text_filters(p, c, false, g);
    let both = starting + having;
    distinct::law_first_distinct(both, 2);
    if 0 <= i < p.len() && c.is_prefix_of(p[i]) && (forall|k: int|
        0 <= k < i ==> !c.is_prefix_of(#[trigger] p[k])) {
        lemma_filter_place(p, f, i);
        assert forall|k: int| 0 <= k < p.take(i).len() implies !f(#[trigger] p.take(i)[k]) by {
            assert(p.take(i)[k] == p[k]);
        }
        p.take(i).lemma_all_neg_filter_empty(f);
        assert(both[0] == p[i]);
    }
    if 0 <= i < p.len() && text::occurs_in(p[i], c) && (forall|k: int|
        0 <= k < i ==> !text::occurs_in(#[trigger] p[k], c)) && (forall|k: int|
        0 <= k < p.len() ==> !c.is_prefix_of(#[trigger] p[k])) {
        lemma_filter_place(p, g, i);
        assert forall|k: int| 0 <= k < p.take(i).len() implies !g(#[trigger] p.take(i)[k]) by {
            assert(p.take(i)[k] == p[k]);
        }
        p.take(i).lemma_all_neg_filter_empty(g);
        p.lemma_all_neg_filter_empty(f);
        assert(both[0] == p[i]);
    }
    if forall|k: int| 0 <= k < p.len() ==> !text::occurs_in(#[trigger] p[k], c) {
        assert forall|k: int| 0 <= k < p.len() implies !f(#[trigger] p[k]) by {
            lemma_prefix_occurs(p[k], c);
        }
        p.lemma_all_neg_filter_empty(f);
        p.lemma_all_neg_filter_empty(g);
        assert(both.len() == 0);
        let none = Seq::<Seq<char>>::empty();
        assert(both =~= none);
        assert(none.remove_duplicates(none) =~= none);
    }
}

proof fn lemma_prefix_occurs(s: Seq<char>, c: Seq<char>)
    ensures
        c.is_prefix_of(s) ==> text::occurs_in(s, c),
{
    if c.is_prefix_of(s) {
        assert(text::occurs_at(s, c, 0));
    }
}

/// The second phrase of a character is another than the first: the next one in the dictionary that
/// starts with it, or where there is none, the first other one that has it. Where no other has it,
/// the second one is empty.
pub proof fn law_the_second_phrase_is_another(d: &Dictionary, c: Seq<char>, i: int)
    ensures
        ({
            let p = d.phrases.deep_view();
            let first = d.phrases_with(c)[0];
            let second = d.phrases_with(c)[1];
            &&& 0 <= i < p.len() && c.is_prefix_of(p[i]) && p[i] != first && (forall|k: int|
                0 <= k < i && c.is_prefix_of(#[trigger] p[k]) ==> p[k] == first) && (exists|k: int|
                0 <= k < i && c.is_prefix_of(#[trigger] p[k])) ==> second == p[i]
            &&& 0 <= i < p.len() && text::occurs_in(p[i], c) && p[i] != first && (forall|k: int|
                0 <= k < i && text::occurs_in(#[trigger] p[k], c) ==> p[k] == first) && (forall|
                k: int,
            |
                0 <= k < p.len() && c.is_prefix_of(#[trigger] p[k]) ==> p[k] == first)
                ==> second == p[i]
            &&& (forall|k: int|
                0 <= k < p.len() && text::occurs_in(#[trigger] p[k], c) ==> p[k] == first)
                ==> second.len() == 0
        }),
{
    let p = d.phrases.deep_view();
    let f = |x: Seq<char>| c.is_prefix_of(x);
    let g = |x: Seq<char>| text::occurs_in(x, c);
    let starting = character::with_text(p, c, true);
    let having = character::with_text(p, c, false);
    lemma_with_text_filters(p, c, true, f);
    lemma_with_text_filters(p, c, false, g);
    let both = starting + having;
    let first = d.phrases_with(c)[0];
    distinct::law_first_distinct(both, 2);
    if both.len() > 0 {
        assert(first == both[0]);
    }
    if 0 <= i < p.len() && c.is_prefix_of(p[i]) && p[i] != first && (forall|k: int|
        0 <= k < i && c.is_prefix_of(#[trigger] p[k]) ==> p[k] == first) && (exists|k: int|
        0 <= k < i && c.is_prefix_of(#[trigger] p[k])) {
        lemma_filter_place(p, f, i);
        let t = p.take(i);
        let m = t.filter(f).len() as int;
        assert forall|k: int| 0 <= k < t.len() && f(#[trigger] t[k]) implies t[k] == first by {
            assert(t[k] == p[k]);
        }
        lemma_filter_alike(t, f, first);
        let k = choose|k: int| 0 <= k < i && c.is_prefix_of(#[trigger] p[k]);
        assert(t[k] == p[k]);
        t.lemma_filter_contains(f, k);
        assert forall|j: int| 0 <= j < m implies #[trigger] both[j] == both[0] by {
            assert(starting.subrange(0, m)[j] == t.filter(f)[j]);
        }
        assert(both[m] == p[i]);
        lemma_two_distinct(both, m);
    }
    if 0 <= i < p.len() && text::occurs_in(p[i], c) && p[i] != first && (forall|k: int|
        0 <= k < i && text::occurs_in(#[trigger] p[k], c) ==> p[k] == first) && (forall|k: int|
        0 <= k < p.len() && c.is_prefix_of(#[trigger] p[k]) ==> p[k] == first) {
        lemma_filter_place(p, g, i);
        let t = p.take(i);
        let m = t.filter(g).len() as int;
        let n = starting.len() as int;
        assert forall|k: int| 0 <= k < t.len() && g(#[trigger] t[k]) implies t[k] == first by {
            assert(t[k] == p[k]);
        }
        lemma_filter_alike(t, g, first);
        lemma_filter_alike(p, f, first);
        assert forall|j: int| 0 <= j < n + m implies #[trigger] both[j] == first by {
            if j >= n {
                assert(having.subrange(0, m)[j - n] == t.filter(g)[j - n]);
            }
        }
        assert(both[n + m] == p[i]);
        assert(n + m > 0);
        lemma_two_distinct(both, n + m);
    }
    if forall|k: int| 0 <= k < p.len() && text::occurs_in(#[trigger] p[k], c) ==> p[k] == first {
        assert forall|k: int| 0 <= k < p.len() && f(#[trigger] p[k]) implies p[k] == first by {
            lemma_prefix_occurs(p[k], c);
        }
        lemma_filter_alike(p, f, first);
        lemma_filter_alike(p, g, first);
        if both.len() > 0 {
            assert forall|j: int| 0 <= j < both.len() implies #[trigger] both[j] == both[0] by {}
            lemma_two_distinct(both, both.len() as int);
        } else {
            let none = Seq::<Seq<char>>::empty();
            assert(both =~= none);
            assert(none.remove_duplicates(none) =~= none);
        }
    }
}

/// A learner is given the radical of the first entry of a character, and its other components with
/// a space between each two: together they are all its components. The strokes are those of the
/// entry. A character without entry has none of these.
pub proof fn law_learners_get_radical_and_other_components(
    d: &Dictionary,
    c: Seq<char>,
    pinyin: Seq<char>,
    i: int,
)
    requires
        d.wf(),
    ensures
        d.learned(c, pinyin).word == c,
        d.learned(c, pinyin).pinyin == pinyin,
        d.learned(c, pinyin).zuci == d.phrases_with(c),
        0 <= i < d.list().len() && d.list()[i].word == c && (forall|j: int|
            0 <= j < i ==> (#[trigger] d.list()[j]).word != c) ==> {
            let e = d.list()[i];
            let r = d.learned(c, pinyin);
            &&& e.parts.len() > 0
            &&& r.bushou == e.parts[0]
            &&& e.parts.len() == 1 ==> r.exclude_bushou.len() == 0
            &&& e.parts.len() > 1 ==> r.bushou + seq![' '] + r.exclude_bushou == text::joined(
                e.parts,
                ' ',
            )
            &&& r.exclude_bushou_stroke == e.strokes_after_radical
        },
        (forall|j: int| 0 <= j < d.list().len() ==> (#[trigger] d.list()[j]).word != c) ==> {
            let r = d.learned(c, pinyin);
            &&& r.bushou.len() == 0
            &&& r.exclude_bushou.len() == 0
            &&& r.exclude_bushou_stroke == 0
        },
{
    assert(d.list().len() == d.entries.len());
    dictionary::lemma_first_of(d.list(), c);
    assert(dictionary::filed_one(d.by_word@, c) == dictionary::first_of(d.list(), c));
    match dictionary::first_of(d.list(), c) {
        Some(k) => {
            let e = d.list()[k as int];
            assert(dictionary::entry_ok(e));
            let rest = e.parts.skip(1);
            if e.parts.len() > 1 {
                text_laws::law_joining(seq![e.parts[0]], rest, e.parts[0], ' ');
                assert(seq![e.parts[0]] + rest =~= e.parts);
            } else {
                assert(rest =~= Seq::<Seq<char>>::empty());
                assert(text::joined(rest, ' ') =~= seq![]);
            }
        },
        None => {},
    }
}

/// The descriptions of a text are those of its characters, each with its own pinyin.
pub proof fn law_texts_are_learned_character_by_character(d: &Dictionary, s: Seq<char>, i: int)
    requires
        0 <= i < s.len(),
    ensures
        d.learned_text(s).len() == s.len(),
        d.learned_text(s)[i] == d.learned(seq![s[i]], reading::first_pinyin(seq![s[i]])),
{
}

/// A search is refused exactly if nothing is given, if there are no components or more than eight,
/// or if no entry has a component that may stand for one of them.
pub proof fn law_searches_are_refused_for_three_reasons(d: &Dictionary, raw: Option<Seq<char>>)
    requires
        d.wf(),
    ensures
        raw is None ==> api::search_refusal(d, raw) == Some(
            Refusal { status: 400, error: "the parts query parameter is required"@ },
        ),
        raw matches Some(s) ==> {
            let asked = api::asked(s);
            let known = forall|k: int|
                0 <= k < asked.len() ==> search_laws::occurs(d, seq![#[trigger] asked[k]]);
            &&& !(1 <= asked.len() <= 8) ==> api::search_refusal(d, raw) == Some(
                Refusal {
                    status: 400,
                    error: "parts must contain 1 to 8 supported Han characters"@,
                },
            )
            &&& 1 <= asked.len() <= 8 && !known ==> api::search_refusal(d, raw) == Some(
                Refusal { status: 400, error: "parts contains an unsupported component"@ },
            )
            &&& 1 <= asked.len() <= 8 && known ==> api::search_refusal(d, raw) is None
        },
{
    if let Some(s) = raw {
        search_laws::law_supported_components_occur(d, api::asked(s));
    }
}

/// What is asked for is the character of a code point, and any other text itself, without the
/// white space around it. A text that does not begin like a code point is none.
pub proof fn law_other_texts_ask_for_themselves(raw: Seq<char>)
    ensures
        codepoint::codepoint_text(text::trimmed(raw)) matches Some(s) ==> api::asked(raw) == s,
        codepoint::codepoint_text(text::trimmed(raw)) is None ==> api::asked(raw)
            == text::trimmed(raw),
        raw.len() > 0 && !text::white_space(raw[0]) && !text::white_space(raw.last()) && !(
        raw.len() >= 2 && (raw[0] == 'U' || raw[0] == 'u') && raw[1] == '+') ==> api::asked(raw)
            == raw,
{
    if raw.len() > 0 && !text::white_space(raw[0]) && !text::white_space(raw.last()) {
        assert(text::trimmed(raw) == raw);
        text_laws::law_code_points_are_numbers_of_characters(raw);
    }
}

/// A lookup of characters is answered exactly if a text is given and has at least one and at most
/// two hundred and four Han characters.
pub proof fn law_lookups_take_up_to_204_characters(raw: Option<Seq<char>>)
    ensures
        api::lookup_refusal(raw) is None <==> raw is Some && 1 <= han::han_only(raw->0).len()
            <= 204,
        raw is None ==> api::lookup_refusal(raw) == Some(
            Refusal { status: 400, error: "the text query parameter is required"@ },
        ),
        raw is Some && !(1 <= han::han_only(raw->0).len() <= 204) ==> api::lookup_refusal(raw)
            == Some(
            Refusal { status: 400, error: "text must contain 1 to 204 Han characters"@ },
        ),
{
}

/// Of a text whose pinyin is looked up, the first two hundred and four characters are taken, or all
/// where there are no more.
pub proof fn law_pinyin_is_given_for_up_to_204_characters(s: Seq<char>)
    ensures
        api::shortened(s).is_prefix_of(s),
        s.len() <= 204 ==> api::shortened(s).len() == s.len(),
        s.len() > 204 ==> api::shortened(s).len() == 204,
{
    assert(api::shortened(s) =~= s.subrange(0, api::shortened(s).len() as int));
}

/// A reply to a search describes the matches in their order, and adds the variants that are no
/// matches. It describes the component itself and its variants where there is one component alone.
pub proof fn law_replies_describe_the_matches(
    d: &Dictionary,
    parts: Seq<char>,
    exact: Seq<usize>,
    partial: Seq<usize>,
    i: int,
)
    ensures
        d.answer(parts, exact, partial).parts == parts,
        d.answer(parts, exact, partial).exact.len() == exact.len(),
        d.answer(parts, exact, partial).partial.len() == partial.len(),
        d.answer(parts, exact, partial).variants.len() == d.further_variants(
            exact,
            partial,
        ).len(),
        0 <= i < exact.len() ==> d.answer(parts, exact, partial).exact[i] == d.described(
            d.list()[exact[i] as int],
            reading::first_pinyin(d.list()[exact[i] as int].word),
        ),
        0 <= i < partial.len() ==> d.answer(parts, exact, partial).partial[i] == d.described(
            d.list()[partial[i] as int],
            reading::first_pinyin(d.list()[partial[i] as int].word),
        ),
        0 <= i < d.further_variants(exact, partial).len() ==> d.answer(
            parts,
            exact,
            partial,
        ).variants[i] == d.char_word(d.further_variants(exact, partial)[i]),
        parts.len() == 1 ==> {
            &&& d.answer(parts, exact, partial).single_word == Some(d.char_word(parts))
            &&& d.answer(parts, exact, partial).character_variants.len() == d.first_variants(
                parts,
            ).len()
            &&& 0 <= i < d.first_variants(parts).len() ==> d.answer(
                parts,
                exact,
                partial,
            ).character_variants[i] == d.char_word(d.first_variants(parts)[i])
        },
        parts.len() != 1 ==> {
            &&& d.answer(parts, exact, partial).single_word is None
            &&& d.answer(parts, exact, partial).character_variants.len() == 0
        },
{
}

/// The port is the one that is written in the value, unless that is no number of a port; then, and
/// where no value is given, it is 8080.
pub proof fn law_ports_are_read(s: Seq<char>)
    requires
        s.len() > 0,
        s[0] != '+',
    ensures
        http::port_for(None) == 8080,
        http::port_for(Some(seq![])) == 8080,
        http::port_for(Some(seq!['+'])) == 8080,
        http::port_for(Some(seq!['+'] + s)) == http::port_for(Some(s)),
        match number::digits_value(s, 10) {
            Some(v) => if v <= 65535 {
                http::port_for(Some(s)) == v
            } else {
                http::port_for(Some(s)) == 8080
            },
            None => http::port_for(Some(s)) == 8080,
        },
{
    text_laws::law_numbers_are_digits(s, 10, 65535);
}

/// The site's two origins are named back to them, with the word to caches that the reply is for
/// that origin.
pub proof fn law_origins_are_named_back(origin: Option<Seq<u8>>)
    ensures
        http::origin_headers(Some(http::bytes_of("https://www.cyeam.com"@))) == seq![
            ("access-control-allow-origin"@, "https://www.cyeam.com"@),
            ("vary"@, "Origin"@),
        ],
        http::origin_headers(Some(http::bytes_of("https://cyeam.com"@))) == seq![
            ("access-control-allow-origin"@, "https://cyeam.com"@),
            ("vary"@, "Origin"@),
        ],
        origin is None ==> http::origin_headers(origin).len() == 0,
{
    reveal_strlit("https://www.cyeam.com");
    reveal_strlit("https://cyeam.com");
    let a = http::bytes_of("https://www.cyeam.com"@);
    let b = http::bytes_of("https://cyeam.com"@);
    http::lemma_text_of_bytes(a, "https://www.cyeam.com"@);
    http::lemma_text_of_bytes(b, "https://cyeam.com"@);
}

/// An address without the slashes at its end is the address up to them, and ends in no slash.
pub proof fn law_slashes_at_the_end_go(s: Seq<char>)
    ensures
        telemetry::without_slashes(s).is_prefix_of(s),
        forall|i: int|
            telemetry::without_slashes(s).len() <= i < s.len() ==> #[trigger] s[i] == '/',
        telemetry::without_slashes(s).len() > 0 ==> telemetry::without_slashes(s).last() != '/',
    decreases s.len(),
{
    let r = telemetry::without_slashes(s);
    if s.len() > 0 && s.last() == '/' {
        law_slashes_at_the_end_go(s.drop_last());
        assert(r =~= s.subrange(0, r.len() as int)) by {
            assert(s.drop_last().subrange(0, r.len() as int) =~= s.subrange(0, r.len() as int));
        }
        assert forall|i: int| r.len() <= i < s.len() implies #[trigger] s[i] == '/' by {
            if i < s.len() - 1 {
                assert(s.drop_last()[i] == '/');
            }
        }
    } else {
        assert(r =~= s.subrange(0, r.len() as int));
    }
}

/// What is configured is taken, and what is not has a default.
pub proof fn law_settings_have_defaults(s: Option<Seq<char>>, t: Seq<char>, default: Seq<char>)
    ensures
        s == Some(t) ==> telemetry::or_default(s, default) == t,
        s is None ==> telemetry::or_default(s, default) == default,
{
}

/// What a description says is what it holds.
pub proof fn law_descriptions_say_what_they_hold(w: Word, s: Seq<Word>, i: int)
    ensures
        w@.word == w.word@,
        w@.pinyin == w.pinyin@,
        w@.codepoint == w.codepoint@,
        w@.parts == w.parts.deep_view(),
        w@.structure == w.structure.deep_view(),
        w@.simple_parts == w.simple_parts.deep_view(),
        w@.glyph_url == w.glyph_url.deep_view(),
        words::word_views(s).len() == s.len(),
        0 <= i < s.len() ==> words::word_views(s)[i] == s[i]@,
{
}

/// What a description for learners says is what it holds.
pub proof fn law_descriptions_for_learners_say_what_they_hold(
    w: CharacterWord,
    s: Seq<CharacterWord>,
    i: int,
)
    ensures
        w@.word == w.word@,
        w@.bushou == w.bushou@,
        w@.exclude_bushou == w.exclude_bushou@,
        w@.exclude_bushou_stroke == w.exclude_bushou_stroke,
        w@.pinyin == w.pinyin@,
        w@.zuci == w.zuci.deep_view(),
        character::character_views(s).len() == s.len(),
        0 <= i < s.len() ==> character::character_views(s)[i] == s[i]@,
{
}

/// What a reply, a refusal, a header and an attribute say is what they hold.
pub proof fn law_replies_say_what_they_hold(
    r: SearchResponse,
    p: PinyinCharacter,
    ps: Seq<PinyinCharacter>,
    e: ApiError,
    h: Header,
    hs: Seq<Header>,
    a: Attribute,
    attributes: Seq<Attribute>,
    argument: Option<&str>,
    i: int,
)
    ensures
        r@.parts == r.parts@,
        r@.exact == words::word_views(r.exact@),
        r@.partial == words::word_views(r.partial@),
        r@.variants == words::word_views(r.variants@),
        r@.character_variants == words::word_views(r.character_variants@),
        r.single_word is None <==> r@.single_word is None,
        r.single_word matches Some(w) ==> r@.single_word == Some(w@),
        p@ == (p.character@, p.pinyin@),
        api::pinyin_views(ps).len() == ps.len(),
        0 <= i < ps.len() ==> api::pinyin_views(ps)[i] == ps[i]@,
        e@.status == e.status,
        e@.error == e.error@,
        h@ == (h.name@, h.value@),
        http::header_views(hs).len() == hs.len(),
        0 <= i < hs.len() ==> http::header_views(hs)[i] == hs[i]@,
        a@.0 == a.key@,
        a.value matches AttributeValue::Text(t) ==> a@.1 == telemetry::ValueView::Text(t@),
        a.value matches AttributeValue::Number(n) ==> a@.1 == telemetry::ValueView::Number(
            n as int,
        ),
        telemetry::attribute_views(attributes).len() == attributes.len(),
        0 <= i < attributes.len() ==> telemetry::attribute_views(attributes)[i] == attributes[i]@,
        argument is None <==> api::given(argument) is None,
        argument matches Some(s) ==> api::given(argument) == Some(s@),
{
}

/// The value of a header is text exactly if its bytes are visible ASCII characters, spaces or tabs,
/// and the text has a character for each byte.
pub proof fn law_header_texts_are_visible(value: Seq<u8>)
    ensures
        http::header_text(value) is Some <==> forall|i: int|
            0 <= i < value.len() ==> 0x20 <= #[trigger] value[i] <= 0x7E || value[i] == 0x09,
        http::header_text(value) matches Some(s) ==> s.len() == value.len() && forall|i: int|
            0 <= i < s.len() ==> (#[trigger] s[i]) as int == value[i],
{
    if forall|i: int|
        0 <= i < value.len() ==> 0x20 <= #[trigger] value[i] <= 0x7E || value[i] == 0x09 {
        assert forall|i: int| 0 <= i < value.len() implies http::visible(#[trigger] value[i]) by {}
    }
    if http::header_text(value) is Some {
        assert forall|i: int| 0 <= i < value.len() implies 0x20 <= #[trigger] value[i] <= 0x7E
            || value[i] == 0x09 by {
            assert(http::visible(value[i]));
        }
    }
}

} // verus!
