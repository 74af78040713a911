//! What a dictionary has from its data files.

use vstd::prelude::*;

use crate::dictionary::{self, Dictionary, Entry, Sources};
use crate::grades;
use crate::key;
use crate::laws;
use crate::number;
use crate::structure::{self, Structure, StructureView};
use crate::text;
use crate::variants;

verus! {

/// The fields of a line of two fields and more: a separator ends each of the first two.
proof fn lemma_fields_of_two(a: Seq<char>, b: Seq<char>, tail: Seq<char>, c: char)
    requires
        !a.contains(c),
        !b.contains(c),
        tail.len() == 0 || tail[0] == c,
    ensures
        text::fields(a, c) == seq![a],
        text::fields(a + seq![c] + b, c) == seq![a, b],
        ({
            let f = text::fields(a + seq![c] + b + tail, c);
            &&& f.len() >= 2
            &&& f[0] == a
            &&& f[1] == b
        }),
{
    text::lemma_fields_single(a, c);
    text::lemma_fields_single(b, c);
    text::lemma_fields_concat(a, b, c);
    assert(seq![a] + seq![b] =~= seq![a, b]);
    if tail.len() == 0 {
        assert(a + seq![c] + b + tail =~= a + seq![c] + b);
    } else {
        let rest = tail.skip(1);
        assert(a + seq![c] + b + tail =~= (a + seq![c] + b) + seq![c] + rest);
        text::lemma_fields_concat(a + seq![c] + b, rest, c);
    }
}

/// A line of the stroke counts is a code point, a bar, a character, a bar and its count; what
/// follows a further bar says nothing. A line without a count says nothing.
pub proof fn law_stroke_lines(
    code: Seq<char>,
    character: Seq<char>,
    count: Seq<char>,
    tail: Seq<char>,
)
    requires
        !code.contains('|'),
        !character.contains('|'),
        !count.contains('|'),
        tail.len() == 0 || tail[0] == '|',
    ensures
        ({
            let line = code + seq!['|'] + character + seq!['|'] + count + tail;
            match number::number(count, 10, 4294967295) {
                Some(n) => dictionary::strokes_of(seq![line]) == map![character => n as u32],
                None => dictionary::strokes_of(seq![line]) == Map::<Seq<char>, u32>::empty(),
            }
        }),
        dictionary::strokes_of(seq![code]) == Map::<Seq<char>, u32>::empty(),
        dictionary::strokes_of(seq![code + seq!['|'] + character]) == Map::<
            Seq<char>,
            u32,
        >::empty(),
{
    let c = '|';
    let line = code + seq![c] + character + seq![c] + count + tail;
    lemma_fields_of_two(code, character, seq![], c);
    lemma_fields_of_two(character, count, tail, c);
    let rest = character + seq![c] + count + tail;
    assert(line =~= code + seq![c] + rest);
    text::lemma_fields_concat(code, rest, c);
    let f = text::fields(line, c);
    assert(f[1] == character && f[2] == count);
    reveal_with_fuel(dictionary::strokes_of, 2);
    let none = Seq::<Seq<char>>::empty();
    assert(seq![line].drop_last() =~= none);
    assert(seq![code].drop_last() =~= none);
    assert(seq![code + seq![c] + character].drop_last() =~= none);
    match number::number(count, 10, 4294967295) {
        Some(n) => {
            assert(dictionary::strokes_of(seq![line]) =~= map![character => n as u32]);
        },
        None => {},
    }
}

/// Of two lists of stroke counts, the later one has precedence.
pub proof fn law_later_stroke_counts_have_precedence(a: Seq<Seq<char>>, b: Seq<Seq<char>>)
    ensures
        dictionary::strokes_of(a + b) == dictionary::strokes_of(a).union_prefer_right(
            dictionary::strokes_of(b),
        ),
    decreases b.len(),
{
    if b.len() == 0 {
        assert(a + b =~= a);
    } else {
        law_later_stroke_counts_have_precedence(a, b.drop_last());
        assert((a + b).drop_last() =~= a + b.drop_last());
        assert((a + b).last() == b.last());
    }
    assert(dictionary::strokes_of(a + b) =~= dictionary::strokes_of(a).union_prefer_right(
        dictionary::strokes_of(b),
    ));
}

/// The strokes of two lists of components put together are those of each, and the strokes of a
/// single component are its count, or none where it has no count.
pub proof fn law_strokes_add_up(
    p: Seq<Seq<char>>,
    q: Seq<Seq<char>>,
    x: Seq<char>,
    strokes: Map<Seq<char>, u32>,
)
    ensures
        dictionary::stroke_sum(p + q, strokes) == dictionary::stroke_sum(p, strokes)
            + dictionary::stroke_sum(q, strokes),
        dictionary::stroke_sum(seq![], strokes) == 0,
        strokes.contains_key(x) ==> dictionary::stroke_sum(seq![x], strokes) == strokes[x],
        !strokes.contains_key(x) ==> dictionary::stroke_sum(seq![x], strokes) == 0,
    decreases q.len(),
{
    assert(seq![x].drop_last() =~= Seq::<Seq<char>>::empty());
    assert(dictionary::stroke_sum(Seq::<Seq<char>>::empty(), strokes) == 0);
    if q.len() == 0 {
        assert(p + q =~= p);
    } else {
        law_strokes_add_up(p, q.drop_last(), x, strokes);
        assert((p + q).drop_last() =~= p + q.drop_last());
        assert((p + q).last() == q.last());
    }
}

/// A line of the components is a character, a tab, and its components with white space between
/// them; what follows a further tab says nothing. The strokes of the entry are those of all its
/// components but the first. A line without a character or without a component says nothing.
pub proof fn law_entry_lines(
    word: Seq<char>,
    parts: Seq<char>,
    tail: Seq<char>,
    strokes: Map<Seq<char>, u32>,
)
    requires
        !word.contains('\t'),
        !parts.contains('\t'),
        tail.len() == 0 || tail[0] == '\t',
    ensures
        ({
            let line = word + seq!['\t'] + parts + tail;
            if word.len() > 0 && text::words(parts).len() > 0 {
                &&& dictionary::entries_of(seq![line], strokes).len() == 1
                &&& dictionary::entries_of(seq![line], strokes)[0].word == word
                &&& dictionary::entries_of(seq![line], strokes)[0].parts == text::words(parts)
                &&& dictionary::entries_of(seq![line], strokes)[0].strokes_after_radical
                    + dictionary::stroke_sum(seq![text::words(parts)[0]], strokes)
                    == dictionary::stroke_sum(text::words(parts), strokes)
            } else {
                dictionary::entries_of(seq![line], strokes).len() == 0
            }
        }),
        dictionary::entries_of(seq![word], strokes).len() == 0,
{
    let line = word + seq!['\t'] + parts + tail;
    lemma_fields_of_two(word, parts, tail, '\t');
    let none = Seq::<Seq<char>>::empty();
    assert(seq![line].drop_last() =~= none);
    assert(seq![word].drop_last() =~= none);
    reveal_with_fuel(dictionary::entries_of, 2);
    let w = text::words(parts);
    if w.len() > 0 {
        law_strokes_add_up(seq![w[0]], w.skip(1), w[0], strokes);
        assert(seq![w[0]] + w.skip(1) =~= w);
    }
}

/// The entries of two lists of lines put together are those of each, in order.
pub proof fn law_entries_come_line_by_line(
    a: Seq<Seq<char>>,
    b: Seq<Seq<char>>,
    strokes: Map<Seq<char>, u32>,
)
    ensures
        dictionary::entries_of(a + b, strokes) == dictionary::entries_of(a, strokes)
            + dictionary::entries_of(b, strokes),
        dictionary::entries_of(seq![], strokes).len() == 0,
    decreases b.len(),
{
    if b.len() == 0 {
        assert(a + b =~= a);
    } else {
        law_entries_come_line_by_line(a, b.drop_last(), strokes);
        assert((a + b).drop_last() =~= a + b.drop_last());
        assert((a + b).last() == b.last());
    }
    assert(dictionary::entries_of(a + b, strokes) =~= dictionary::entries_of(a, strokes)
        + dictionary::entries_of(b, strokes));
}

/// The phrases of two lists of lines put together are those of each, in order; a line is a phrase
/// without the white space around it, unless nothing is left.
pub proof fn law_phrases_come_line_by_line(a: Seq<Seq<char>>, b: Seq<Seq<char>>, line: Seq<char>)
    ensures
        dictionary::phrases_of(a + b) == dictionary::phrases_of(a) + dictionary::phrases_of(b),
        dictionary::phrases_of(seq![]) == Seq::<Seq<char>>::empty(),
        text::trimmed(line).len() > 0 ==> dictionary::phrases_of(seq![line]) == seq![
            text::trimmed(line),
        ],
        text::trimmed(line).len() == 0 ==> dictionary::phrases_of(seq![line]) == Seq::<
            Seq<char>,
        >::empty(),
{
    let f = |line: Seq<char>| text::trimmed(line);
    let p = |p: Seq<char>| p.len() > 0;
    let none = Seq::<Seq<char>>::empty();
    assert((a + b).map_values(f) =~= a.map_values(f) + b.map_values(f));
    Seq::filter_distributes_over_add(a.map_values(f), b.map_values(f), p);
    reveal_with_fuel(Seq::filter, 2);
    assert(none.map_values(f) =~= none);
    assert(dictionary::phrases_of(none) =~= none);
    let one = seq![line].map_values(f);
    assert(one =~= seq![text::trimmed(line)]);
    assert(one.drop_last() =~= none);
    if text::trimmed(line).len() > 0 {
        assert(dictionary::phrases_of(seq![line]) =~= seq![text::trimmed(line)]);
    }
}

/// A line of the compositions is a character, a tab, a layout, a tab, and the parts with white
/// space between them. A line with fewer tabs says nothing.
pub proof fn law_composition_lines(character: Seq<char>, layout: Seq<char>, parts: Seq<char>)
    requires
        !character.contains('\t'),
        !layout.contains('\t'),
    ensures
        structure::structures_of(
            seq![character + seq!['\t'] + layout + seq!['\t'] + parts],
        ) == map![
            character => (StructureView {
                name: structure::layout_name(layout),
                parts: text::words(parts),
            }),
        ],
        structure::structures_of(seq![character + seq!['\t'] + layout]) == Map::<
            Seq<char>,
            StructureView,
        >::empty(),
        structure::structures_of(seq![character]) == Map::<Seq<char>, StructureView>::empty(),
{
    let c = '\t';
    let line = character + seq![c] + layout + seq![c] + parts;
    lemma_fields_of_two(character, layout, seq![], c);
    text::lemma_fields_concat(character + seq![c] + layout, parts, c);
    crate::text_laws::law_fields_make_the_text(parts, c);
    let f = text::fields(line, c);
    assert(f.skip(2) =~= text::fields(parts, c));
    let none = Seq::<Seq<char>>::empty();
    reveal_with_fuel(structure::structures_of, 2);
    assert(seq![line].drop_last() =~= none);
    assert(seq![character].drop_last() =~= none);
    assert(seq![character + seq![c] + layout].drop_last() =~= none);
    assert(structure::structures_of(seq![line]) =~= map![
        character => (StructureView {
            name: structure::layout_name(layout),
            parts: text::words(parts),
        }),
    ]);
}

/// Of two lists of compositions, the later one has precedence.
pub proof fn law_later_compositions_have_precedence(a: Seq<Seq<char>>, b: Seq<Seq<char>>)
    ensures
        structure::structures_of(a + b) == structure::structures_of(a).union_prefer_right(
            structure::structures_of(b),
        ),
    decreases b.len(),
{
    if b.len() == 0 {
        assert(a + b =~= a);
    } else {
        law_later_compositions_have_precedence(a, b.drop_last());
        assert((a + b).drop_last() =~= a + b.drop_last());
        assert((a + b).last() == b.last());
    }
    assert(structure::structures_of(a + b) =~= structure::structures_of(a).union_prefer_right(
        structure::structures_of(b),
    ));
}

/// Twelve characters are layouts; nothing else has the name of one.
pub proof fn law_layouts_are_twelve_characters(operator: Seq<char>)
    ensures
        structure::layout_name(seq!['\u{2FF0}']) == "左右结构"@,
        structure::layout_name(seq!['\u{2FF1}']) == "上下结构"@,
        structure::layout_name(seq!['\u{2FF2}']) == "左中右结构"@,
        structure::layout_name(seq!['\u{2FF3}']) == "上中下结构"@,
        structure::layout_name(seq!['\u{2FF4}']) == "全包围结构"@,
        structure::layout_name(seq!['\u{2FF5}']) == "半包围结构"@,
        structure::layout_name(seq!['\u{2FF6}']) == "半包围结构"@,
        structure::layout_name(seq!['\u{2FF7}']) == "半包围结构"@,
        structure::layout_name(seq!['\u{2FF8}']) == "半包围结构"@,
        structure::layout_name(seq!['\u{2FF9}']) == "半包围结构"@,
        structure::layout_name(seq!['\u{2FFA}']) == "半包围结构"@,
        structure::layout_name(seq!['\u{2FFB}']) == "镶嵌结构"@,
        operator.len() != 1 || !('\u{2FF0}' <= operator[0] <= '\u{2FFB}')
            ==> structure::layout_name(operator) == Seq::<char>::empty(),
{
}

/// No list has a text twice.
pub open spec fn without_repeats(m: Map<Seq<char>, Seq<Seq<char>>>) -> bool {
    forall|k: Seq<char>| #[trigger] m.contains_key(k) ==> m[k].no_duplicates()
}

/// Putting a text into a list puts it at the end, unless it is there already; no other list
/// changes.
pub proof fn law_a_variant_is_put_at_the_end(
    m: Map<Seq<char>, Seq<Seq<char>>>,
    from: Seq<char>,
    to: Seq<char>,
    k: Seq<char>,
)
    ensures
        k != from ==> variants::listed(variants::with_variant(m, from, to), k)
            == variants::listed(m, k),
        variants::listed(m, from).contains(to) ==> variants::listed(
            variants::with_variant(m, from, to),
            from,
        ) == variants::listed(m, from),
        !variants::listed(m, from).contains(to) ==> variants::listed(
            variants::with_variant(m, from, to),
            from,
        ) == variants::listed(m, from).push(to),
{
}

/// A line puts its further words, in order, into the list of its first word, and the first word
/// into the list of each further one; what a list has already is not put there again.
pub proof fn law_lines_extend_the_lists(
    m: Map<Seq<char>, Seq<Seq<char>>>,
    line: Seq<char>,
    k: Seq<char>,
)
    requires
        without_repeats(m),
    ensures
        ({
            let w = text::words(line);
            let before = variants::listed(m, k);
            let after = variants::listed(variants::with_line(m, line), k);
            if w.len() >= 2 && k == w[0] {
                after == (before + w.skip(1)).remove_duplicates(seq![])
            } else if w.len() >= 2 && w.skip(1).contains(k) && !before.contains(w[0]) {
                after == before.push(w[0])
            } else {
                after == before
            }
        }),
        without_repeats(variants::with_line(m, line)),
{
    let w = text::words(line);
    if w.len() >= 2 {
        lemma_targets_extend(m, w[0], w.skip(1), k);
    } else {
        assert(variants::with_line(m, line) == m);
    }
}

proof fn lemma_targets_extend(
    m: Map<Seq<char>, Seq<Seq<char>>>,
    head: Seq<char>,
    targets: Seq<Seq<char>>,
    k: Seq<char>,
)
    requires
        without_repeats(m),
    ensures
        ({
            let before = variants::listed(m, k);
            let after = variants::listed(variants::with_targets(m, head, targets), k);
            if k == head {
                after == (before + targets).remove_duplicates(seq![])
            } else if targets.contains(k) && !before.contains(head) {
                after == before.push(head)
            } else {
                after == before
            }
        }),
        without_repeats(variants::with_targets(m, head, targets)),
    decreases targets.len(),
{
    let none = Seq::<Seq<char>>::empty();
    let before = variants::listed(m, k);
    if targets.len() == 0 {
        assert(before + targets =~= before);
        assert(before.no_duplicates()) by {
            if m.contains_key(k) {
                assert(m[k].no_duplicates());
            }
        }
        lemma_nothing_removed(before);
    } else {
        let rest = targets.drop_last();
        let to = targets.last();
        lemma_targets_extend(m, head, rest, k);
        let m1 = variants::with_targets(m, head, rest);
        let m2 = variants::with_variant(m1, head, to);
        let m3 = variants::with_variant(m2, to, head);
        assert(rest.push(to) =~= targets);
        vstd::seq_lib::lemma_seq_contains_after_push(rest, to, k);
        assert(targets.contains(to)) by {
            assert(targets[targets.len() - 1] == to);
        }
        assert forall|j: Seq<char>| #[trigger] m3.contains_key(j) implies m3[j].no_duplicates() by {
            if m1.contains_key(j) {
                assert(m1[j].no_duplicates());
            }
        }
        if k == head {
            let all = before + rest;
            all.lemma_remove_duplicates_append(to, none);
            all.lemma_remove_duplicates_properties(none);
            assert(all + none =~= all);
            assert(all + seq![to] =~= before + targets);
            let l1 = variants::listed(m1, head);
            assert(l1 == all.remove_duplicates(none));
            assert(l1.contains(to) <==> all.contains(to));
            let l2 = variants::listed(m2, head);
            if !l1.contains(to) {
                assert(l2 == l1.push(to));
                assert(l1 + seq![to] =~= l1.push(to));
            }
            assert(l2 == (before + targets).remove_duplicates(none));
            if to == head {
                assert(l2.contains(to)) by {
                    if !l1.contains(to) {
                        assert(l2[l1.len() as int] == to);
                    }
                }
            }
        } else if to == k {
            assert(variants::listed(m2, k) == variants::listed(m1, k));
            if !before.contains(head) && rest.contains(k) {
                assert(variants::listed(m1, k)[before.len() as int] == head);
            }
        } else {
            assert(variants::listed(m3, k) == variants::listed(m1, k));
        }
    }
}

proof fn lemma_nothing_removed(s: Seq<Seq<char>>)
    requires
        s.no_duplicates(),
    ensures
        s.remove_duplicates(seq![]) == s,
    decreases s.len(),
{
    let none = Seq::<Seq<char>>::empty();
    if s.len() > 0 {
        let t = s.drop_last();
        let x = s.last();
        lemma_nothing_removed(t);
        t.lemma_remove_duplicates_append(x, none);
        assert(t + none =~= t);
        assert(t + seq![x] =~= s);
        assert(!t.contains(x)) by {
            if t.contains(x) {
                let i = choose|i: int| 0 <= i < t.len() && t[i] == x;
                assert(s[i] == s[s.len() - 1]);
            }
        }
    } else {
        assert(s.remove_duplicates(none) =~= s);
    }
}

/// Lines are taken one after the other, and so are the sources that they stand in.
pub proof fn law_variants_come_line_by_line(
    m: Map<Seq<char>, Seq<Seq<char>>>,
    a: Seq<Seq<char>>,
    b: Seq<Seq<char>>,
    line: Seq<char>,
    sources: Seq<Seq<char>>,
    source: Seq<char>,
)
    ensures
        variants::with_lines(m, seq![]) == m,
        variants::with_lines(m, seq![line]) == variants::with_line(m, line),
        variants::with_lines(m, a + b) == variants::with_lines(variants::with_lines(m, a), b),
        variants::variants_of(seq![]) == Map::<Seq<char>, Seq<Seq<char>>>::empty(),
        variants::variants_of(sources.push(source)) == variants::with_lines(
            variants::variants_of(sources),
            text::text_lines(source),
        ),
    decreases b.len(),
{
    let none = Seq::<Seq<char>>::empty();
    assert(variants::with_lines(m, none) == m);
    assert(seq![line].drop_last() =~= none);
    assert(sources.push(source).drop_last() =~= sources);
    if b.len() == 0 {
        assert(a + b =~= a);
    } else {
        law_variants_come_line_by_line(m, a, b.drop_last(), line, sources, source);
        assert((a + b).drop_last() =~= a + b.drop_last());
        assert((a + b).last() == b.last());
    }
}

/// The line puts `a` and `b` together: one is its first word and the other a further one.
pub open spec fn puts_together(line: Seq<char>, a: Seq<char>, b: Seq<char>) -> bool {
    exists|j: int|
        1 <= j < text::words(line).len() && ((text::words(line)[0] == a && #[trigger] text::words(
            line,
        )[j] == b) || (text::words(line)[0] == b && text::words(line)[j] == a))
}

/// Some line of the source puts `a` and `b` together.
pub open spec fn source_puts_together(source: Seq<char>, a: Seq<char>, b: Seq<char>) -> bool {
    exists|i: int|
        0 <= i < text::text_lines(source).len() && puts_together(
            #[trigger] text::text_lines(source)[i],
            a,
            b,
        )
}

proof fn lemma_line_relates(line: Seq<char>, a: Seq<char>, b: Seq<char>)
    ensures
        variants::line_relates(line, a, b) <==> puts_together(line, a, b),
{
    let w = text::words(line);
    if w.len() >= 2 {
        if w[0] == a && w.skip(1).contains(b) {
            let j = choose|j: int| 0 <= j < w.skip(1).len() && w.skip(1)[j] == b;
            assert(w[j + 1] == b);
        }
        if w[0] == b && w.skip(1).contains(a) {
            let j = choose|j: int| 0 <= j < w.skip(1).len() && w.skip(1)[j] == a;
            assert(w[j + 1] == a);
        }
        if puts_together(line, a, b) {
            let j = choose|j: int|
                1 <= j < w.len() && ((w[0] == a && #[trigger] w[j] == b) || (w[0] == b && w[j]
                    == a));
            assert(w.skip(1)[j - 1] == w[j]);
        }
    }
}

proof fn lemma_source_relates(source: Seq<char>, a: Seq<char>, b: Seq<char>)
    ensures
        variants::lines_relate(text::text_lines(source), a, b) <==> source_puts_together(
            source,
            a,
            b,
        ),
{
    let ls = text::text_lines(source);
    if variants::lines_relate(ls, a, b) {
        let i = choose|i: int| 0 <= i < ls.len() && variants::line_relates(#[trigger] ls[i], a, b);
        lemma_line_relates(ls[i], a, b);
        assert(puts_together(text::text_lines(source)[i], a, b));
    }
    if source_puts_together(source, a, b) {
        let i = choose|i: int|
            0 <= i < text::text_lines(source).len() && puts_together(
                #[trigger] text::text_lines(source)[i],
                a,
                b,
            );
        lemma_line_relates(ls[i], a, b);
        assert(variants::line_relates(ls[i], a, b));
    }
}

/// In a loaded dictionary, a text may stand for a component exactly if it is the component itself,
/// or a line of one of the three variant files puts them together.
pub proof fn law_candidates_are_put_together_in_the_files(
    d: &Dictionary,
    sources: &Sources,
    part: Seq<char>,
    x: Seq<char>,
)
    requires
        d.holds(sources),
    ensures
        d.candidates(part).contains(x) <==> {
            ||| x == part
            ||| source_puts_together(sources.jp_variants@, part, x)
            ||| source_puts_together(sources.component_variants@, part, x)
            ||| source_puts_together(sources.char_variants@, part, x)
        },
        d.variants_of_char(part).contains(x) <==> source_puts_together(
            sources.char_variants@,
            part,
            x,
        ),
        d.variants_of_char(part).no_duplicates(),
{
    let a = seq![sources.jp_variants@, sources.component_variants@];
    let b = seq![sources.char_variants@];
    crate::laws::lemma_candidates(d, part, x);
    variants::law_variants_are_those_listed(a, part, x);
    variants::law_variants_are_those_listed(b, part, x);
    lemma_source_relates(sources.jp_variants@, part, x);
    lemma_source_relates(sources.component_variants@, part, x);
    lemma_source_relates(sources.char_variants@, part, x);
    if variants::sources_relate(a, part, x) {
        let k = choose|k: int|
            0 <= k < a.len() && variants::lines_relate(
                text::text_lines(#[trigger] a[k]),
                part,
                x,
            );
        assert(k == 0 || k == 1);
    }
    if source_puts_together(sources.jp_variants@, part, x) {
        assert(variants::lines_relate(text::text_lines(a[0]), part, x));
    }
    if source_puts_together(sources.component_variants@, part, x) {
        assert(variants::lines_relate(text::text_lines(a[1]), part, x));
    }
    if variants::sources_relate(b, part, x) {
        let k = choose|k: int|
            0 <= k < b.len() && variants::lines_relate(
                text::text_lines(#[trigger] b[k]),
                part,
                x,
            );
        assert(k == 0);
    }
    if source_puts_together(sources.char_variants@, part, x) {
        assert(variants::lines_relate(text::text_lines(b[0]), part, x));
    }
    let m = variants::lists(d.char_variants@);
    if m.contains_key(part) {
        assert(m[part].no_duplicates());
    }
}

/// A loaded dictionary has the entries, the stroke counts, the compositions and the phrases of the
/// lines of its files, and nothing else.
pub proof fn law_loaded_dictionaries_have_their_lines(d: &Dictionary, sources: &Sources)
    requires
        d.holds(sources),
    ensures
        d.strokes@ == dictionary::strokes_of(text::text_lines(sources.strokes@)),
        d.list() == dictionary::entries_of(text::text_lines(sources.radicals@), d.strokes@),
        d.phrases.deep_view() == dictionary::phrases_of(text::text_lines(sources.words@)),
        variants::lists(d.component_variants@) == variants::variants_of(
            seq![sources.jp_variants@, sources.component_variants@],
        ),
        variants::lists(d.char_variants@) == variants::variants_of(seq![sources.char_variants@]),
        forall|w: Seq<char>|
            d.structures@.contains_key(w) <==> #[trigger] structure::structures_of(
                text::text_lines(sources.ids_struct@),
            ).contains_key(w),
        forall|w: Seq<char>| #[trigger]
            d.structures@.contains_key(w) ==> d.structures@[w]@ == structure::structures_of(
                text::text_lines(sources.ids_struct@),
            )[w],
{
    let m = structure::structure_views(d.structures@);
    assert forall|w: Seq<char>|
        d.structures@.contains_key(w) <==> #[trigger] structure::structures_of(
            text::text_lines(sources.ids_struct@),
        ).contains_key(w) by {
        assert(m.contains_key(w) <==> d.structures@.contains_key(w));
    }
    assert forall|w: Seq<char>| #[trigger] d.structures@.contains_key(w) implies {
        d.structures@[w]@ == structure::structures_of(text::text_lines(sources.ids_struct@))[w]
    } by {
        assert(m.contains_key(w));
    }
}

/// The data files can be loaded unless the strokes of the components of some entry, its first one
/// left out, come to more than four bytes can hold.
pub proof fn law_files_are_refused_for_their_strokes_alone(sources: &Sources)
    ensures
        sources.countable() <==> forall|i: int|
            0 <= i < sources.entries().len() ==> dictionary::stroke_sum(
                (#[trigger] sources.entries()[i]).parts.skip(1),
                sources.stroke_counts(),
            ) <= 4294967295,
        sources.stroke_counts() == dictionary::strokes_of(text::text_lines(sources.strokes@)),
        sources.entries() == dictionary::entries_of(
            text::text_lines(sources.radicals@),
            sources.stroke_counts(),
        ),
{
    let ls = text::text_lines(sources.radicals@);
    let m = sources.stroke_counts();
    let es = sources.entries();
    lemma_entries_count(ls, m);
    if sources.countable() {
        assert forall|i: int| 0 <= i < es.len() implies dictionary::stroke_sum(
            (#[trigger] es[i]).parts.skip(1),
            m,
        ) <= 4294967295 by {
            assert(es[i].strokes_after_radical <= u32::MAX);
        }
    }
}

proof fn lemma_entries_count(ls: Seq<Seq<char>>, strokes: Map<Seq<char>, u32>)
    ensures
        forall|i: int|
            0 <= i < dictionary::entries_of(ls, strokes).len() ==> {
                (#[trigger] dictionary::entries_of(ls, strokes)[i]).strokes_after_radical
                    == dictionary::stroke_sum(
                    dictionary::entries_of(ls, strokes)[i].parts.skip(1),
                    strokes,
                )
            },
    decreases ls.len(),
{
    if ls.len() > 0 {
        lemma_entries_count(ls.drop_last(), strokes);
        let es = dictionary::entries_of(ls, strokes);
        let before = dictionary::entries_of(ls.drop_last(), strokes);
        assert forall|i: int| 0 <= i < es.len() implies {
            (#[trigger] es[i]).strokes_after_radical == dictionary::stroke_sum(
                es[i].parts.skip(1),
                strokes,
            )
        } by {
            if i < before.len() {
                assert(es[i] == before[i]);
            }
        }
    }
}

/// In a loaded dictionary, the strokes of an entry and those of its radical are together those of
/// all its components.
pub proof fn law_entries_count_every_component(d: &Dictionary, sources: &Sources, i: int)
    requires
        d.wf(),
        d.holds(sources),
        0 <= i < d.list().len(),
    ensures
        d.list()[i].parts.len() > 0,
        d.list()[i].strokes_after_radical + dictionary::stroke_sum(
            seq![d.list()[i].parts[0]],
            d.strokes@,
        ) == dictionary::stroke_sum(d.list()[i].parts, d.strokes@),
{
    let e = d.list()[i];
    assert(dictionary::entry_ok(e));
    lemma_entries_count(text::text_lines(sources.radicals@), d.strokes@);
    law_strokes_add_up(seq![e.parts[0]], e.parts.skip(1), e.parts[0], d.strokes@);
    assert(seq![e.parts[0]] + e.parts.skip(1) =~= e.parts);
}

/// What an entry and a composition say is what they hold, and a list of entries says it in order.
pub proof fn law_entries_say_what_they_hold(
    e: Entry,
    s: Structure,
    d: &Dictionary,
    i: int,
)
    ensures
        e@.word == e.word@,
        e@.strokes_after_radical == e.strokes_after_radical,
        e@.parts.len() == e.parts@.len(),
        forall|j: int| 0 <= j < e.parts@.len() ==> #[trigger] e@.parts[j] == e.parts@[j]@,
        s@.name == s.name@,
        s@.parts.len() == s.parts@.len(),
        forall|j: int| 0 <= j < s.parts@.len() ==> #[trigger] s@.parts[j] == s.parts@[j]@,
        d.list().len() == d.entries@.len(),
        0 <= i < d.entries@.len() ==> d.list()[i] == d.entries@[i]@,
{
}

/// A map of lists of texts, one of compositions and one of texts show what they hold under each
/// key.
pub proof fn law_maps_show_what_they_hold(
    a: Map<Seq<char>, Vec<String>>,
    b: Map<Seq<char>, Structure>,
    c: Map<Seq<char>, String>,
    k: Seq<char>,
)
    ensures
        variants::lists(a).contains_key(k) <==> a.contains_key(k),
        a.contains_key(k) ==> variants::lists(a)[k] == a[k].deep_view(),
        a.contains_key(k) ==> variants::listed(variants::lists(a), k) == a[k].deep_view(),
        !a.contains_key(k) ==> variants::listed(variants::lists(a), k).len() == 0,
        structure::structure_views(b).contains_key(k) <==> b.contains_key(k),
        b.contains_key(k) ==> structure::structure_views(b)[k] == b[k]@,
        grades::text_views(c).contains_key(k) <==> c.contains_key(k),
        c.contains_key(k) ==> grades::text_views(c)[k] == c[k]@,
{
}

/// The indexes have exactly the keys and the components of entries, with the positions of the
/// entries that have them in increasing order, and exactly the characters of entries, with the
/// position of the first.
pub proof fn law_indexes_are_of_the_entries(d: &Dictionary, k: Seq<char>, i: usize)
    requires
        d.wf(),
    ensures
        i < d.list().len() && key::key_of(d.list()[i as int].parts) == k ==> d.exact@.contains_key(
            k,
        ) && d.exact@[k]@.contains(i),
        d.exact@.contains_key(k) ==> d.exact@[k]@.len() > 0 && laws::increasing(d.exact@[k]@),
        d.exact@.contains_key(k) && d.exact@[k]@.contains(i) ==> i < d.list().len()
            && key::key_of(d.list()[i as int].parts) == k,
        i < d.list().len() && d.list()[i as int].parts.contains(k) ==> d.by_part@.contains_key(k)
            && d.by_part@[k]@.contains(i),
        d.by_part@.contains_key(k) ==> d.by_part@[k]@.len() > 0 && laws::increasing(
            d.by_part@[k]@,
        ),
        d.by_part@.contains_key(k) && d.by_part@[k]@.contains(i) ==> i < d.list().len()
            && d.list()[i as int].parts.contains(k),
        i < d.list().len() && d.list()[i as int].word == k ==> d.by_word@.contains_key(k)
            && d.by_word@[k] <= i,
        d.by_word@.contains_key(k) ==> d.by_word@[k] < d.list().len()
            && d.list()[d.by_word@[k] as int].word == k,
{
    laws::law_indexes_list_the_entries(d, k, i);
    assert(d.list().len() == d.entries.len());
    dictionary::lemma_first_of(d.list(), k);
    assert(dictionary::filed_one(d.by_word@, k) == dictionary::first_of(d.list(), k));
}

} // verus!
