//! Finding characters by their components.

use std::collections::HashSet;

use vstd::hash_set::StringHashSet;
use vstd::prelude::*;

use crate::dictionary::{self, Dictionary};
use crate::distinct::add_distinct;
use crate::key::{self, component_key};
use crate::rank::{self, MAX_RESULTS};
use crate::text::{char_text, holds_text, push_text};
use crate::variants;

verus! {

/// The components have one of the choices.
pub open spec fn has_choice(parts: Seq<Seq<char>>, choice: Seq<Seq<char>>) -> bool {
    exists|j: int| 0 <= j < choice.len() && parts.contains(#[trigger] choice[j])
}

/// The components have one of the choices from each list.
pub open spec fn has_choices(parts: Seq<Seq<char>>, c: Seq<Seq<Seq<char>>>) -> bool {
    forall|k: int| 0 <= k < c.len() ==> has_choice(parts, #[trigger] c[k])
}

impl Dictionary {
    /// A component and its variants: itself, then its variants as a component, then those as a
    /// character, each once.
    pub open spec fn candidates(&self, part: Seq<char>) -> Seq<Seq<char>> {
        (seq![part] + variants::listed(variants::lists(self.component_variants@), part)
            + variants::listed(variants::lists(self.char_variants@), part)).remove_duplicates(
            seq![],
        )
    }

    /// What may stand for each of the given components.
    pub open spec fn choices(&self, parts: Seq<char>) -> Seq<Seq<Seq<char>>> {
        parts.map_values(|c: char| self.candidates(seq![c]))
    }

    /// Every component, or a variant of it, occurs in an entry.
    pub open spec fn supported(&self, parts: Seq<char>) -> bool {
        forall|i: int|
            0 <= i < parts.len() ==> self.supported_part(self.candidates(seq![#[trigger] parts[i]]))
    }

    /// One of the choices occurs in an entry.
    pub open spec fn supported_part(&self, choice: Seq<Seq<char>>) -> bool {
        exists|j: int| 0 <= j < choice.len() && self.by_part@.contains_key(#[trigger] choice[j])
    }

    /// The positions of the entries made of exactly the components `chosen` and one choice from
    /// each list, for each way of choosing in turn.
    pub open spec fn made_of(&self, c: Seq<Seq<Seq<char>>>, chosen: Seq<Seq<char>>) -> Seq<usize>
        decreases c.len(), c[0].len() + 1,
    {
        if c.len() == 0 {
            dictionary::filed(self.exact@, key::key_of(chosen))
        } else {
            self.made_of_first(c, chosen, c[0].len())
        }
    }

    /// The part of `made_of` for the first `n` choices from the first list.
    pub open spec fn made_of_first(
        &self,
        c: Seq<Seq<Seq<char>>>,
        chosen: Seq<Seq<char>>,
        n: nat,
    ) -> Seq<usize>
        decreases c.len(), n,
    {
        if n == 0 || c.len() == 0 {
            seq![]
        } else {
            self.made_of_first(c, chosen, (n - 1) as nat) + self.made_of(
                c.skip(1),
                chosen.push(c[0][n - 1]),
            )
        }
    }

    /// The exact matches of the given components, and their characters.
    pub open spec fn exact_matches(&self, parts: Seq<char>) -> (Seq<usize>, Set<Seq<char>>) {
        rank::pick(self.list(), seq![], Set::empty(), self.made_of(self.choices(parts), seq![]))
    }

    /// The entry at `i` has one of the choices from each list, and its character was not seen.
    pub open spec fn left(&self, c: Seq<Seq<Seq<char>>>, seen: Set<Seq<char>>, i: usize) -> bool {
        &&& c.len() > 0
        &&& i < self.list().len()
        &&& has_choices(self.list()[i as int].parts, c)
        &&& !seen.contains(self.list()[i as int].word)
    }

    /// `order` lists the entries that are left, each once.
    pub open spec fn lists_left(
        &self,
        c: Seq<Seq<Seq<char>>>,
        seen: Set<Seq<char>>,
        order: Seq<usize>,
    ) -> bool {
        &&& order.no_duplicates()
        &&& forall|i: usize| #[trigger] order.contains(i) <==> self.left(c, seen, i)
    }

    /// `exact` and `partial` are the results of a search for the given components: the exact
    /// matches, and the ranking of the entries that are left, in whichever order they are found.
    pub open spec fn search_result(
        &self,
        parts: Seq<char>,
        exact: Seq<usize>,
        partial: Seq<usize>,
    ) -> bool {
        &&& exact == self.exact_matches(parts).0
        &&& exists|order: Seq<usize>| #[trigger]
            self.lists_left(self.choices(parts), self.exact_matches(parts).1, order)
                && rank::ranked(self.list(), order, partial)
    }

    /// A component and its variants.
    pub fn component_candidates(&self, part: &str) -> (r: Vec<String>)
        ensures
            r.deep_view() == self.candidates(part@),
    {
        let mut out: Vec<String> = Vec::new();
        push_text(&mut out, part.to_owned());
        let ghost head = seq![part@];
        proof {
            let none = Seq::<Seq<char>>::empty();
            none.lemma_remove_duplicates_append(part@, none);
            assert(none + none =~= none);
            assert(none + head =~= head);
            assert(none.remove_duplicates(none) =~= none);
            assert(out.deep_view() =~= head.remove_duplicates(none));
        }
        let ghost first = variants::listed(variants::lists(self.component_variants@), part@);
        match self.component_variants.get(part) {
            Some(list) => {
                assert(list.deep_view() =~= first);
                add_new(&mut out, list, Ghost(head));
            },
            None => {
                assert(head + first =~= head);
            },
        }
        let ghost second = variants::listed(variants::lists(self.char_variants@), part@);
        match self.char_variants.get(part) {
            Some(list) => {
                assert(list.deep_view() =~= second);
                add_new(&mut out, list, Ghost(head + first));
            },
            None => {
                assert(head + first + second =~= head + first);
            },
        }
        out
    }

    /// Whether every component, or a variant of it, occurs in an entry.
    pub fn supports(&self, parts: &str) -> (r: bool)
        ensures
            r == self.supported(parts@),
    {
        for x in it: parts.chars()
            invariant
                it.seq() == parts@,
                forall|i: int|
                    0 <= i < it.index() ==> self.supported_part(
                        self.candidates(seq![#[trigger] parts@[i]]),
                    ),
        {
            let part = char_text(x);
            let choice = self.component_candidates(part.as_str());
            let ghost c = choice.deep_view();
            assert(x == parts@[it.index()]);
            let mut known: bool = false;
            for j in 0..choice.len()
                invariant
                    c == choice.deep_view(),
                    known == (exists|k: int|
                        0 <= k < j && self.by_part@.contains_key(#[trigger] c[k])),
            {
                assert(c[j as int] == choice@[j as int]@);
                if self.by_part.contains_key(choice[j].as_str()) {
                    known = true;
                }
            }
            if !known {
                return false;
            }
        }
        true
    }
}

/// Appends the texts of `list` that `out` does not hold yet.
fn add_new(out: &mut Vec<String>, list: &Vec<String>, Ghost(before): Ghost<Seq<Seq<char>>>)
    requires
        old(out).deep_view() == before.remove_duplicates(seq![]),
    ensures
        final(out).deep_view() == (before + list.deep_view()).remove_duplicates(seq![]),
{
    let ghost all = list.deep_view();
    assert(before + all.take(0) =~= before);
    for i in 0..list.len()
        invariant
            all == list.deep_view(),
            out.deep_view() == (before + all.take(i as int)).remove_duplicates(seq![]),
    {
        let ghost done = before + all.take(i as int);
        add_distinct(out, &list[i], Ghost(done));
        assert(done.push(all[i as int]) =~= before + all.take(i + 1));
    }
    assert(all.take(all.len() as int) =~= all);
}

impl Dictionary {
    /// There are at most as many entries as positions.
    proof fn lemma_positions(&self)
        ensures
            self.list().len() == self.entries@.len(),
            self.list().len() <= usize::MAX,
    {
        assert(self.entries.len() <= usize::MAX);
    }

    /// Takes the exact matches of every way of choosing one candidate from each list from `offset`
    /// on, in addition to those already selected.
    pub fn exact_combinations(
        &self,
        candidates: &[Vec<String>],
        offset: usize,
        selected: &mut Vec<String>,
        seen: &mut StringHashSet,
        output: &mut Vec<usize>,
    )
        requires
            self.keys_in_range(),
            offset <= candidates@.len(),
        ensures
            final(selected).deep_view() == old(selected).deep_view(),
            (final(output)@, final(seen)@) == rank::pick(
                self.list(),
                old(output)@,
                old(seen)@,
                self.made_of(
                    candidates.deep_view().skip(offset as int),
                    old(selected).deep_view(),
                ),
            ),
        decreases candidates@.len() - offset,
    {
        let ghost es = self.list();
        let ghost c = candidates.deep_view().skip(offset as int);
        let ghost sel = selected.deep_view();
        let ghost all = self.made_of(c, sel);
        let ghost out0 = output@;
        let ghost seen0 = seen@;
        if output.len() >= MAX_RESULTS {
            return;
        }
        let total: usize = candidates.len();
        if offset == total {
            let wanted = component_key(selected);
            assert(all == dictionary::filed(self.exact@, wanted@));
            match self.exact.get(wanted.as_str()) {
                Some(indexes) => {
                    proof {
                        self.lemma_positions();
                        assert(all.skip(0) =~= all);
                        assert forall|j: int| 0 <= j < all.len() implies all[j] < es.len() by {
                            assert(dictionary::filed(self.exact@, wanted@)[j] < es.len());
                        }
                    }
                    for j in 0..indexes.len()
                        invariant
                            es == self.list(),
                            es.len() == self.entries@.len(),
                            all == indexes@,
                            all == self.made_of(candidates.deep_view().skip(offset as int), sel),
                            sel == old(selected).deep_view(),
                            out0 == old(output)@,
                            seen0 == old(seen)@,
                            forall|k: int| 0 <= k < all.len() ==> all[k] < es.len(),
                            rank::pick(es, output@, seen@, all.skip(j as int)) == rank::pick(
                                es,
                                out0,
                                seen0,
                                all,
                            ),
                            selected.deep_view() == sel,
                    {
                        let index: usize = indexes[j];
                        proof {
                            assert(all.skip(j as int)[0] == index);
                            assert(all.skip(j as int).skip(1) =~= all.skip(j + 1));
                            assert(es[index as int].word == self.entries@[index as int].word@);
                        }
                        if output.len() >= MAX_RESULTS {
                            return;
                        }
                        let ghost seen1 = seen@;
                        if seen.insert(self.entries[index].word.clone()) {
                            output.push(index);
                        } else {
                            assert(seen@ =~= seen1);
                        }
                    }
                    assert(all.skip(all.len() as int) =~= seq![]);
                },
                None => {},
            }
            return;
        }
        let list: &Vec<String> = &candidates[offset];
        assert(c[0] == list.deep_view());
        for j in 0..list.len()
            invariant
                self.keys_in_range(),
                offset < total,
                total == candidates@.len(),
                list == candidates@[offset as int],
                es == self.list(),
                c == candidates.deep_view().skip(offset as int),
                c[0] == list.deep_view(),
                all == self.made_of(c, sel),
                sel == old(selected).deep_view(),
                out0 == old(output)@,
                seen0 == old(seen)@,
                selected.deep_view() == sel,
                (output@, seen@) == rank::pick(
                    es,
                    out0,
                    seen0,
                    self.made_of_first(c, sel, j as nat),
                ),
        {
            let ghost x = c[0][j as int];
            assert(x == list@[j as int]@);
            push_text(selected, list[j].clone());
            proof {
                assert(c.skip(1) =~= candidates.deep_view().skip(offset + 1));
                rank::lemma_pick_append(
                    es,
                    out0,
                    seen0,
                    self.made_of_first(c, sel, j as nat),
                    self.made_of(c.skip(1), sel.push(x)),
                );
            }
            self.exact_combinations(candidates, offset + 1, selected, seen, output);
            let ghost longer = selected.deep_view();
            selected.pop();
            assert(selected.deep_view() =~= longer.drop_last());
            assert(longer.drop_last() =~= sel);
            if output.len() >= MAX_RESULTS {
                proof {
                    self.lemma_first_full(c, sel, (j + 1) as nat, c[0].len(), out0, seen0);
                }
                return;
            }
        }
    }

    /// Where the first choices already give as many as a search gives, further ones add nothing.
    proof fn lemma_first_full(
        &self,
        c: Seq<Seq<Seq<char>>>,
        chosen: Seq<Seq<char>>,
        m: nat,
        n: nat,
        out: Seq<usize>,
        seen: Set<Seq<char>>,
    )
        requires
            c.len() > 0,
            m <= n,
            rank::pick(self.list(), out, seen, self.made_of_first(c, chosen, m)).0.len()
                >= MAX_RESULTS,
        ensures
            rank::pick(self.list(), out, seen, self.made_of_first(c, chosen, n)) == rank::pick(
                self.list(),
                out,
                seen,
                self.made_of_first(c, chosen, m),
            ),
        decreases n,
    {
        if m < n {
            let before = self.made_of_first(c, chosen, (n - 1) as nat);
            let last = self.made_of(c.skip(1), chosen.push(c[0][n - 1]));
            self.lemma_first_full(c, chosen, m, (n - 1) as nat, out, seen);
            rank::lemma_pick_append(self.list(), out, seen, before, last);
            let got = rank::pick(self.list(), out, seen, before);
            rank::lemma_pick_full(self.list(), got.0, got.1, last);
        }
    }
}

/// A filter keeps exactly what passes it, and nothing twice that did not occur twice.
proof fn lemma_filter_keeps(s: Seq<usize>, p: spec_fn(usize) -> bool)
    ensures
        forall|i: usize| #[trigger] s.filter(p).contains(i) <==> s.contains(i) && p(i),
        s.no_duplicates() ==> s.filter(p).no_duplicates(),
    decreases s.len(),
{
    reveal(Seq::filter);
    if s.len() > 0 {
        let rest = s.drop_last();
        let last = s.last();
        lemma_filter_keeps(rest, p);
        assert(s =~= rest.push(last));
        assert forall|i: usize| #[trigger] s.filter(p).contains(i) <==> s.contains(i) && p(i) by {
            vstd::seq_lib::lemma_seq_contains_after_push(rest, last, i);
            vstd::seq_lib::lemma_seq_contains_after_push(rest.filter(p), last, i);
            assert(s[s.len() - 1] == last);
        }
        if s.no_duplicates() && p(last) {
            assert(!rest.filter(p).contains(last)) by {
                if rest.contains(last) {
                    let k = choose|k: int| 0 <= k < rest.len() && rest[k] == last;
                    assert(s[k] == s[s.len() - 1]);
                }
            }
            assert(rest.no_duplicates());
        }
    }
}

impl Dictionary {
    /// Whether the entry at `index` has one of the choices from each list.
    fn fits(&self, candidates: &[Vec<String>], index: usize) -> (r: bool)
        requires
            index < self.list().len(),
        ensures
            r == has_choices(self.list()[index as int].parts, candidates.deep_view()),
    {
        let ghost c = candidates.deep_view();
        let parts: &Vec<String> = &self.entries[index].parts;
        let ghost p = parts.deep_view();
        assert(p == self.list()[index as int].parts);
        for k in 0..candidates.len()
            invariant
                c == candidates.deep_view(),
                p == parts.deep_view(),
                forall|i: int| 0 <= i < k ==> has_choice(p, #[trigger] c[i]),
                p == self.list()[index as int].parts,
        {
            let choice: &Vec<String> = &candidates[k];
            let ghost x = choice.deep_view();
            assert(x == c[k as int]);
            let mut found: bool = false;
            for j in 0..choice.len()
                invariant
                    x == choice.deep_view(),
                    p == parts.deep_view(),
                    found == (exists|i: int| 0 <= i < j && p.contains(#[trigger] x[i])),
            {
                assert(x[j as int] == choice@[j as int]@);
                if holds_text(parts, &choice[j]) {
                    found = true;
                }
            }
            if !found {
                assert(!has_choice(p, c[k as int]));
                return false;
            }
        }
        true
    }

    /// The ranking of the entries of `pool` that have one of the choices from each list and whose
    /// character was not seen, for a pool in any order.
    pub fn partial_matches(
        &self,
        candidates: &[Vec<String>],
        seen: &StringHashSet,
        pool: &Vec<usize>,
    ) -> (r: Vec<usize>)
        requires
            forall|i: int| 0 <= i < pool@.len() ==> pool@[i] < self.list().len(),
        ensures
            rank::ranked(
                self.list(),
                pool@.filter(
                    |i: usize|
                        has_choices(self.list()[i as int].parts, candidates.deep_view())
                            && !seen@.contains(self.list()[i as int].word),
                ),
                r@,
            ),
    {
        let ghost es = self.list();
        let ghost c = candidates.deep_view();
        let ghost s = pool@;
        let ghost p = |i: usize|
            has_choices(self.list()[i as int].parts, candidates.deep_view()) && !seen@.contains(
                self.list()[i as int].word,
            );
        let mut kept: Vec<usize> = Vec::new();
        proof {
            reveal(Seq::filter);
            assert(kept@ =~= s.take(0).filter(p));
        }
        for i in 0..pool.len()
            invariant
                es == self.list(),
                s == pool@,
                forall|j: int| 0 <= j < s.len() ==> s[j] < es.len(),
                p == (|i: usize|
                    has_choices(self.list()[i as int].parts, candidates.deep_view())
                        && !seen@.contains(self.list()[i as int].word)),
                kept@ == s.take(i as int).filter(p),
                forall|j: int| 0 <= j < kept@.len() ==> kept@[j] < es.len(),
        {
            let index: usize = pool[i];
            proof {
                let t = s.take(i as int);
                t.lemma_filter_push(index, p);
                assert(t.push(index) =~= s.take(i + 1));
                assert(es[index as int].word == self.entries@[index as int].word@);
            }
            if !seen.contains(self.entries[index].word.as_str()) && self.fits(candidates, index) {
                kept.push(index);
            }
        }
        assert(s.take(s.len() as int) =~= s);
        self.rank(&kept)
    }

    /// The positions of the entries that have one of the choices.
    fn pool_of(&self, choice: &Vec<String>) -> (r: HashSet<usize>)
        requires
            self.parts_indexed(),
        ensures
            forall|i: usize| #[trigger]
                r@.contains(i) <==> i < self.list().len() && has_choice(
                    self.list()[i as int].parts,
                    choice.deep_view(),
                ),
    {
        broadcast use vstd::std_specs::hash::group_hash_axioms;

        let ghost es = self.list();
        let ghost x = choice.deep_view();
        let mut pool: HashSet<usize> = HashSet::new();
        for j in 0..choice.len()
            invariant
                self.parts_indexed(),
                es == self.list(),
                x == choice.deep_view(),
                forall|i: usize| #[trigger]
                    pool@.contains(i) <==> i < es.len() && exists|k: int|
                        0 <= k < j && es[i as int].parts.contains(#[trigger] x[k]),
        {
            let ghost before = pool@;
            let ghost y = x[j as int];
            assert(y == choice@[j as int]@);
            let ghost listed = dictionary::filed(self.by_part@, y);
            match self.by_part.get(choice[j].as_str()) {
                Some(list) => {
                    for k in 0..list.len()
                        invariant
                            listed == list@,
                            forall|i: usize| #[trigger]
                                pool@.contains(i) <==> before.contains(i) || listed.take(
                                    k as int,
                                ).contains(i),
                    {
                        proof {
                            assert(listed.take(k + 1) =~= listed.take(k as int).push(
                                listed[k as int],
                            ));
                            assert forall|i: usize|
                                listed.take(k + 1).contains(i) <==> listed.take(k as int).contains(
                                    i,
                                ) || i == listed[k as int] by {
                                vstd::seq_lib::lemma_seq_contains_after_push(
                                    listed.take(k as int),
                                    listed[k as int],
                                    i,
                                );
                                assert(listed.take(k + 1)[k as int] == listed[k as int]);
                            }
                        }
                        pool.insert(list[k]);
                    }
                    assert(listed.take(listed.len() as int) =~= listed);
                },
                None => {},
            }
            proof {
                self.lemma_positions();
                assert forall|i: usize| #[trigger]
                    pool@.contains(i) <==> i < es.len() && exists|k: int|
                        0 <= k < j + 1 && es[i as int].parts.contains(#[trigger] x[k]) by {
                    dictionary::lemma_with_part(es, y, i);
                    assert(listed == dictionary::with_part(es, y));
                    assert(pool@.contains(i) <==> before.contains(i) || listed.contains(i));
                    if pool@.contains(i) && listed.contains(i) {
                        assert(es[i as int].parts.contains(x[j as int]));
                    }
                }
            }
        }
        pool
    }

    /// What makes the results of a search.
    proof fn lemma_search_result(
        &self,
        parts: Seq<char>,
        exact: Seq<usize>,
        seen: Set<Seq<char>>,
        order: Seq<usize>,
        partial: Seq<usize>,
    )
        requires
            (exact, seen) == self.exact_matches(parts),
            self.lists_left(self.choices(parts), seen, order),
            rank::ranked(self.list(), order, partial),
        ensures
            self.search_result(parts, exact, partial),
    {
        assert(self.lists_left(self.choices(parts), self.exact_matches(parts).1, order));
    }

    /// The exact and the partial matches of the given components.
    pub fn search(&self, parts: &str) -> (r: (Vec<usize>, Vec<usize>))
        requires
            self.keys_in_range(),
            self.parts_indexed(),
        ensures
            self.search_result(parts@, r.0@, r.1@),
    {
        broadcast use vstd::std_specs::hash::group_hash_axioms;

        let ghost es = self.list();
        let mut candidates: Vec<Vec<String>> = Vec::new();
        let ghost c = self.choices(parts@);
        for x in it: parts.chars()
            invariant
                it.seq() == parts@,
                c == self.choices(parts@),
                candidates.deep_view() == c.take(it.index()),
        {
            let part = char_text(x);
            let choice = self.component_candidates(part.as_str());
            let ghost before = candidates.deep_view();
            let ghost new = choice.deep_view();
            candidates.push(choice);
            assert(candidates.deep_view() =~= before.push(new));
            assert(new == c[it.index()]);
            assert(candidates.deep_view() =~= c.take(it.index() + 1));
        }
        assert(c.take(parts@.len() as int) =~= c);
        let mut exact: Vec<usize> = Vec::new();
        let mut seen = StringHashSet::new();
        let mut selected: Vec<String> = Vec::new();
        assert(selected.deep_view() =~= seq![]);
        let lists: &[Vec<String>] = candidates.as_slice();
        assert(lists.deep_view() =~= c);
        assert(c.skip(0) =~= c);
        self.exact_combinations(lists, 0, &mut selected, &mut seen, &mut exact);
        let mut smallest: Option<HashSet<usize>> = None;
        for k in 0..candidates.len()
            invariant
                self.parts_indexed(),
                es == self.list(),
                c == self.choices(parts@),
                c == candidates.deep_view(),
                (exact@, seen@) == self.exact_matches(parts@),
                smallest is None <==> k == 0,
                smallest matches Some(pool) ==> forall|i: usize| #[trigger]
                    pool@.contains(i) ==> i < es.len(),
                smallest matches Some(pool) ==> forall|i: usize|
                    i < es.len() && has_choices(es[i as int].parts, c) ==> #[trigger]
                    pool@.contains(i),
        {
            let pool = self.pool_of(&candidates[k]);
            assert(c[k as int] == candidates@[k as int].deep_view());
            if pool.is_empty() {
                proof {
                    let none = Seq::<usize>::empty();
                    assert forall|i: usize| !self.left(c, seen@, i) by {
                        if self.left(c, seen@, i) {
                            assert(has_choice(es[i as int].parts, c[k as int]));
                            assert(pool@.contains(i));
                        }
                    }
                    assert(self.lists_left(c, seen@, none));
                    rank::lemma_ranked_empty(es);
                }
                let nothing: Vec<usize> = Vec::new();
                proof {
                    self.lemma_search_result(parts@, exact@, seen@, seq![], nothing@);
                }
                return (exact, nothing);
            }
            let smaller: bool = match &smallest {
                Some(current) => pool.len() < current.len(),
                None => true,
            };
            if smaller {
                smallest = Some(pool);
            }
        }
        match smallest {
            None => {
                proof {
                    assert(self.lists_left(c, seen@, Seq::<usize>::empty()));
                    rank::lemma_ranked_empty(es);
                }
                let nothing: Vec<usize> = Vec::new();
                proof {
                    self.lemma_search_result(parts@, exact@, seen@, seq![], nothing@);
                }
                (exact, nothing)
            },
            Some(found) => {
                let mut pool: Vec<usize> = Vec::new();
                for i in it: found.iter()
                    invariant
                        it.seq().unref().to_set() == found@,
                        it.seq().no_duplicates(),
                        pool@ == it.seq().unref().take(it.index()),
                        it.index() == it.seq().len() ==> pool@.to_set() == found@,
                {
                    pool.push(*i);
                    assert(pool@ =~= it.seq().unref().take(it.index() + 1));
                    assert(it.index() + 1 == it.seq().len() ==> pool@ =~= it.seq().unref());
                }
                proof {
                    assert(pool@.no_duplicates());
                    assert forall|i: int| 0 <= i < pool@.len() implies pool@[i] < es.len() by {
                        assert(found@.contains(pool@[i]));
                    }
                }
                let partial = self.partial_matches(lists, &seen, &pool);
                proof {
                    let p = |i: usize|
                        has_choices(self.list()[i as int].parts, lists.deep_view())
                            && !seen@.contains(self.list()[i as int].word);
                    let order = pool@.filter(p);
                    lemma_filter_keeps(pool@, p);
                    assert forall|i: usize| #[trigger] order.contains(i) <==> self.left(
                        c,
                        seen@,
                        i,
                    ) by {
                        assert(found@.contains(i) == pool@.to_set().contains(i));
                    }
                    self.lemma_search_result(parts@, exact@, seen@, order, partial@);
                }
                (exact, partial)
            },
        }
    }
}

} // verus!
