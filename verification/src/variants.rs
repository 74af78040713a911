//! Variant forms of characters and components.

use vstd::hash_map::StringHashMap;
use vstd::prelude::*;

use crate::text::{self, copy_texts, holds_text, lines, push_text, split_whitespace};

verus! {

/// The texts that each text is listed with.
pub open spec fn lists(m: Map<Seq<char>, Vec<String>>) -> Map<Seq<char>, Seq<Seq<char>>> {
    m.map_values(|v: Vec<String>| v.deep_view())
}

/// The list of `key`, empty where it has none.
pub open spec fn listed(m: Map<Seq<char>, Seq<Seq<char>>>, key: Seq<char>) -> Seq<Seq<char>> {
    if m.contains_key(key) {
        m[key]
    } else {
        seq![]
    }
}

/// `m` with `to` in the list of `from`, at its end where it was not listed.
pub open spec fn with_variant(
    m: Map<Seq<char>, Seq<Seq<char>>>,
    from: Seq<char>,
    to: Seq<char>,
) -> Map<Seq<char>, Seq<Seq<char>>> {
    let list = listed(m, from);
    m.insert(
        from,
        if list.contains(to) {
            list
        } else {
            list.push(to)
        },
    )
}

/// `m` with `head` and each of `targets` as variants of each other.
pub open spec fn with_targets(
    m: Map<Seq<char>, Seq<Seq<char>>>,
    head: Seq<char>,
    targets: Seq<Seq<char>>,
) -> Map<Seq<char>, Seq<Seq<char>>>
    decreases targets.len(),
{
    if targets.len() == 0 {
        m
    } else {
        let to = targets.last();
        let before = with_targets(m, head, targets.drop_last());
        with_variant(with_variant(before, head, to), to, head)
    }
}

/// `m` with what a line says: its first word and each further word are variants.
pub open spec fn with_line(m: Map<Seq<char>, Seq<Seq<char>>>, line: Seq<char>) -> Map<
    Seq<char>,
    Seq<Seq<char>>,
> {
    let w = text::words(line);
    if w.len() < 2 {
        m
    } else {
        with_targets(m, w[0], w.skip(1))
    }
}

/// `m` with what the lines say, one after the other.
pub open spec fn with_lines(m: Map<Seq<char>, Seq<Seq<char>>>, ls: Seq<Seq<char>>) -> Map<
    Seq<char>,
    Seq<Seq<char>>,
>
    decreases ls.len(),
{
    if ls.len() == 0 {
        m
    } else {
        with_line(with_lines(m, ls.drop_last()), ls.last())
    }
}

/// The variants that the sources list, one source after the other.
pub open spec fn variants_of(sources: Seq<Seq<char>>) -> Map<Seq<char>, Seq<Seq<char>>>
    decreases sources.len(),
{
    if sources.len() == 0 {
        Map::empty()
    } else {
        with_lines(variants_of(sources.drop_last()), text::text_lines(sources.last()))
    }
}

/// Puts `to` into the list of `from`, unless it is there already.
pub fn add_variant(map: &mut StringHashMap<Vec<String>>, from: &str, to: &str)
    ensures
        lists(final(map)@) == with_variant(lists(old(map)@), from@, to@),
{
    let mut list: Vec<String> = match map.get(from) {
        Some(found) => copy_texts(found),
        None => Vec::new(),
    };
    assert(list.deep_view() =~= listed(lists(map@), from@));
    let target = to.to_owned();
    if !holds_text(&list, &target) {
        push_text(&mut list, target);
    }
    map.insert(from.to_owned(), list);
    assert(lists(map@) =~= with_variant(lists(old(map)@), from@, to@));
}

/// The variants that the sources list, in both directions.
pub fn variant_map(sources: &[&str]) -> (r: StringHashMap<Vec<String>>)
    ensures
        lists(r@) == variants_of(sources.deep_view()),
{
    let mut map: StringHashMap<Vec<String>> = StringHashMap::new();
    let ghost all = sources.deep_view();
    assert(lists(map@) =~= Map::empty());
    for k in 0..sources.len()
        invariant
            all == sources.deep_view(),
            lists(map@) == variants_of(all.take(k as int)),
    {
        let source_lines = lines(sources[k]);
        let ghost ls = source_lines.deep_view();
        let ghost before = lists(map@);
        for i in 0..source_lines.len()
            invariant
                ls == source_lines.deep_view(),
                lists(map@) == with_lines(before, ls.take(i as int)),
        {
            let line_words = split_whitespace(source_lines[i].as_str());
            let ghost w = line_words.deep_view();
            let ghost m = lists(map@);
            proof {
                assert(ls.take(i + 1).drop_last() =~= ls.take(i as int));
                assert(ls.take(i + 1).last() == source_lines@[i as int]@);
            }
            if line_words.len() >= 2 {
                let ghost targets = w.skip(1);
                assert(targets.take(0) =~= seq![]);
                for j in 1..line_words.len()
                    invariant
                        w == line_words.deep_view(),
                        w.len() >= 2,
                        targets == w.skip(1),
                        lists(map@) == with_targets(m, w[0], targets.take(j - 1)),
                {
                    proof {
                        assert(targets.take(j as int).drop_last() =~= targets.take(j - 1));
                        assert(targets.take(j as int).last() == line_words@[j as int]@);
                    }
                    add_variant(&mut map, line_words[0].as_str(), line_words[j].as_str());
                    add_variant(&mut map, line_words[j].as_str(), line_words[0].as_str());
                }
                assert(targets.take(w.len() - 1) =~= targets);
            }
        }
        proof {
            assert(ls.take(ls.len() as int) =~= ls);
            assert(all.take(k + 1).drop_last() =~= all.take(k as int));
            assert(all.take(k + 1).last() == sources@[k as int]@);
        }
    }
    assert(all.take(all.len() as int) =~= all);
    map
}

/// A line lists `a` and `b` as variants: one is its first word, the other a further word.
pub open spec fn line_relates(line: Seq<char>, a: Seq<char>, b: Seq<char>) -> bool {
    let w = text::words(line);
    w.len() >= 2 && ((w[0] == a && w.skip(1).contains(b)) || (w[0] == b && w.skip(1).contains(a)))
}

/// One of the lines lists `a` and `b` as variants.
pub open spec fn lines_relate(ls: Seq<Seq<char>>, a: Seq<char>, b: Seq<char>) -> bool {
    exists|i: int| 0 <= i < ls.len() && line_relates(#[trigger] ls[i], a, b)
}

/// One of the sources lists `a` and `b` as variants.
pub open spec fn sources_relate(sources: Seq<Seq<char>>, a: Seq<char>, b: Seq<char>) -> bool {
    exists|k: int|
        0 <= k < sources.len() && lines_relate(text::text_lines(#[trigger] sources[k]), a, b)
}

/// Every list holds words, at least one, and none of them twice.
pub open spec fn tidy(m: Map<Seq<char>, Seq<Seq<char>>>) -> bool {
    forall|key: Seq<char>| #[trigger]
        m.contains_key(key) ==> {
            &&& m[key].len() > 0
            &&& m[key].no_duplicates()
            &&& forall|i: int|
                0 <= i < m[key].len() ==> (#[trigger] m[key][i]).len() > 0 && text::solid(m[key][i])
        }
}

proof fn lemma_with_variant(
    m: Map<Seq<char>, Seq<Seq<char>>>,
    from: Seq<char>,
    to: Seq<char>,
    a: Seq<char>,
    b: Seq<char>,
)
    ensures
        listed(with_variant(m, from, to), a).contains(b) <==> listed(m, a).contains(b) || (a == from
            && b == to),
        tidy(m) && to.len() > 0 && text::solid(to) ==> tidy(with_variant(m, from, to)),
{
    broadcast use vstd::seq_lib::lemma_seq_contains_after_push;

    let n = with_variant(m, from, to);
    let list = listed(m, from);
    if a == from {
        if !list.contains(to) {
            assert(list.push(to)[list.len() as int] == to);
        }
    }
    if tidy(m) && to.len() > 0 && text::solid(to) {
        if list.contains(to) {
            assert(m.contains_key(from));
        }
        assert forall|key: Seq<char>| #[trigger] n.contains_key(key) implies {
            &&& n[key].len() > 0
            &&& n[key].no_duplicates()
            &&& forall|i: int|
                0 <= i < n[key].len() ==> (#[trigger] n[key][i]).len() > 0 && text::solid(n[key][i])
        } by {
            if key != from {
                assert(m.contains_key(key));
            } else if m.contains_key(from) {
                assert(list.no_duplicates());
            }
        }
    }
}

proof fn lemma_with_targets(
    m: Map<Seq<char>, Seq<Seq<char>>>,
    head: Seq<char>,
    targets: Seq<Seq<char>>,
    a: Seq<char>,
    b: Seq<char>,
)
    ensures
        listed(with_targets(m, head, targets), a).contains(b) <==> listed(m, a).contains(b) || (a
            == head && targets.contains(b)) || (b == head && targets.contains(a)),
        tidy(m) && head.len() > 0 && text::solid(head) && (forall|i: int|
            0 <= i < targets.len() ==> (#[trigger] targets[i]).len() > 0 && text::solid(targets[i]))
            ==> tidy(with_targets(m, head, targets)),
    decreases targets.len(),
{
    if targets.len() > 0 {
        let rest = targets.drop_last();
        let to = targets.last();
        let before = with_targets(m, head, rest);
        lemma_with_targets(m, head, rest, a, b);
        lemma_with_variant(before, head, to, a, b);
        lemma_with_variant(with_variant(before, head, to), to, head, a, b);
        assert(targets =~= rest.push(to));
        vstd::seq_lib::lemma_seq_contains_after_push(rest, to, a);
        vstd::seq_lib::lemma_seq_contains_after_push(rest, to, b);
        assert(targets.contains(to)) by {
            assert(targets[targets.len() - 1] == to);
        }
    }
}

proof fn lemma_with_lines(
    m: Map<Seq<char>, Seq<Seq<char>>>,
    ls: Seq<Seq<char>>,
    a: Seq<char>,
    b: Seq<char>,
)
    ensures
        listed(with_lines(m, ls), a).contains(b) <==> listed(m, a).contains(b) || lines_relate(
            ls,
            a,
            b,
        ),
        tidy(m) ==> tidy(with_lines(m, ls)),
    decreases ls.len(),
{
    if ls.len() > 0 {
        let rest = ls.drop_last();
        let line = ls.last();
        let w = text::words(line);
        lemma_with_lines(m, rest, a, b);
        text::lemma_words_solid(line);
        if w.len() >= 2 {
            lemma_with_targets(with_lines(m, rest), w[0], w.skip(1), a, b);
        }
        assert(lines_relate(ls, a, b) <==> lines_relate(rest, a, b) || line_relates(
            line,
            a,
            b,
        )) by {
            if lines_relate(ls, a, b) {
                let i = choose|i: int| 0 <= i < ls.len() && line_relates(#[trigger] ls[i], a, b);
                if i < rest.len() {
                    assert(line_relates(rest[i], a, b));
                }
            }
            if lines_relate(rest, a, b) {
                let i = choose|i: int|
                    0 <= i < rest.len() && line_relates(#[trigger] rest[i], a, b);
                assert(line_relates(ls[i], a, b));
            }
            if line_relates(line, a, b) {
                assert(line_relates(ls[ls.len() - 1], a, b));
            }
        }
    }
}

/// A text is listed with exactly those that some line puts together with it, and the lists are
/// tidy.
pub proof fn law_variants_are_those_listed(sources: Seq<Seq<char>>, a: Seq<char>, b: Seq<char>)
    ensures
        listed(variants_of(sources), a).contains(b) <==> sources_relate(sources, a, b),
        tidy(variants_of(sources)),
    decreases sources.len(),
{
    if sources.len() > 0 {
        let rest = sources.drop_last();
        let ls = text::text_lines(sources.last());
        law_variants_are_those_listed(rest, a, b);
        lemma_with_lines(variants_of(rest), ls, a, b);
        assert(sources_relate(sources, a, b) <==> sources_relate(rest, a, b) || lines_relate(
            ls,
            a,
            b,
        )) by {
            if sources_relate(sources, a, b) {
                let k = choose|k: int|
                    0 <= k < sources.len() && lines_relate(
                        text::text_lines(#[trigger] sources[k]),
                        a,
                        b,
                    );
                if k < rest.len() {
                    assert(lines_relate(text::text_lines(rest[k]), a, b));
                }
            }
            if sources_relate(rest, a, b) {
                let k = choose|k: int|
                    0 <= k < rest.len() && lines_relate(
                        text::text_lines(#[trigger] rest[k]),
                        a,
                        b,
                    );
                assert(lines_relate(text::text_lines(sources[k]), a, b));
            }
            if lines_relate(ls, a, b) {
                assert(lines_relate(text::text_lines(sources[sources.len() - 1]), a, b));
            }
        }
    }
}

/// Being a variant goes both ways.
pub proof fn law_variants_are_mutual(sources: Seq<Seq<char>>, a: Seq<char>, b: Seq<char>)
    ensures
        listed(variants_of(sources), a).contains(b) <==> listed(variants_of(sources), b).contains(
            a,
        ),
{
    law_variants_are_those_listed(sources, a, b);
    law_variants_are_those_listed(sources, b, a);
    assert forall|line: Seq<char>| line_relates(line, a, b) == line_relates(line, b, a) by {}
    assert forall|ls: Seq<Seq<char>>| lines_relate(ls, a, b) == lines_relate(ls, b, a) by {
        if lines_relate(ls, a, b) {
            let i = choose|i: int| 0 <= i < ls.len() && line_relates(#[trigger] ls[i], a, b);
            assert(line_relates(ls[i], b, a));
        }
        if lines_relate(ls, b, a) {
            let i = choose|i: int| 0 <= i < ls.len() && line_relates(#[trigger] ls[i], b, a);
            assert(line_relates(ls[i], a, b));
        }
    }
}

} // verus!
