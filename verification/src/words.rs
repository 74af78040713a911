//! The description of a character in search results.

use vstd::hash_set::StringHashSet;
use vstd::prelude::*;

use crate::codepoint::{self, glyph_of, label_of};
use crate::dictionary::{self, Dictionary, Entry, EntryView};
use crate::distinct::{self, add_distinct};
use crate::reading::{self, pinyin_of_first};
use crate::text::{chars_of, copy_texts};
use crate::variants;

verus! {

/// The most variants that a search lists.
pub const MAX_VARIANTS: usize = 20;

/// A character: its pinyin, code point and components, its composition where that says something
/// else, and the address of its drawing where it needs one.
#[derive(Debug, PartialEq)]
pub struct Word {
    pub word: String,
    pub pinyin: String,
    pub codepoint: String,
    pub parts: Vec<String>,
    pub structure: Option<String>,
    pub simple_parts: Vec<String>,
    pub glyph_url: Option<String>,
}

/// What the description of a character says.
#[verifier::ext_equal]
pub struct WordView {
    pub word: Seq<char>,
    pub pinyin: Seq<char>,
    pub codepoint: Seq<char>,
    pub parts: Seq<Seq<char>>,
    pub structure: Option<Seq<char>>,
    pub simple_parts: Seq<Seq<char>>,
    pub glyph_url: Option<Seq<char>>,
}

impl View for Word {
    type V = WordView;

    open spec fn view(&self) -> WordView {
        WordView {
            word: self.word@,
            pinyin: self.pinyin@,
            codepoint: self.codepoint@,
            parts: self.parts.deep_view(),
            structure: self.structure.deep_view(),
            simple_parts: self.simple_parts.deep_view(),
            glyph_url: self.glyph_url.deep_view(),
        }
    }
}

/// What the descriptions say.
pub open spec fn word_views(s: Seq<Word>) -> Seq<WordView> {
    s.map_values(|w: Word| w@)
}

/// A further description says what it says after the others.
proof fn lemma_word_views_push<A>(
    s: Seq<Word>,
    w: Word,
    a: Seq<A>,
    k: int,
    f: spec_fn(A) -> WordView,
)
    requires
        0 <= k < a.len(),
        word_views(s) == a.take(k).map_values(f),
        w@ == f(a[k]),
    ensures
        word_views(s.push(w)) == a.take(k + 1).map_values(f),
{
    assert(word_views(s).len() == k);
    assert forall|i: int| 0 <= i < k implies word_views(s.push(w))[i] == #[trigger] a.take(
        k + 1,
    ).map_values(f)[i] by {
        assert(word_views(s)[i] == a.take(k).map_values(f)[i]);
    }
    assert(word_views(s.push(w)) =~= a.take(k + 1).map_values(f));
}

/// The description of a character of which no components are known.
pub open spec fn bare(word: Seq<char>, pinyin: Seq<char>) -> WordView {
    WordView {
        word,
        pinyin,
        codepoint: if word.len() > 0 {
            codepoint::codepoint_label(word[0])
        } else {
            seq![]
        },
        parts: seq![],
        structure: None,
        simple_parts: seq![],
        glyph_url: if word.len() > 0 {
            codepoint::glyph_address(word[0])
        } else {
            None
        },
    }
}

/// The characters of the entries at the given positions.
pub open spec fn words_at(es: Seq<EntryView>, s: Seq<usize>) -> Set<Seq<char>> {
    s.map_values(|i: usize| es[i as int].word).to_set()
}

impl Dictionary {
    /// The description of the character of an entry, given its pinyin. Its composition is added
    /// where that has other parts than the entry.
    pub open spec fn described(&self, e: EntryView, pinyin: Seq<char>) -> WordView {
        let plain = WordView { parts: e.parts, ..bare(e.word, pinyin) };
        if self.structures@.contains_key(e.word) && self.structures@[e.word]@.parts != e.parts {
            WordView {
                structure: Some(self.structures@[e.word]@.name),
                simple_parts: self.structures@[e.word]@.parts,
                ..plain
            }
        } else {
            plain
        }
    }

    /// The description of the character of an entry.
    pub open spec fn entry_word(&self, e: EntryView) -> WordView {
        self.described(e, reading::first_pinyin(e.word))
    }

    /// The description of a character: that of its first entry, where it has one.
    pub open spec fn char_word(&self, word: Seq<char>) -> WordView {
        match dictionary::filed_one(self.by_word@, word) {
            Some(i) => self.entry_word(self.list()[i as int]),
            None => bare(word, reading::first_pinyin(word)),
        }
    }

    /// The variants of a character.
    pub open spec fn variants_of_char(&self, word: Seq<char>) -> Seq<Seq<char>> {
        variants::listed(variants::lists(self.char_variants@), word)
    }

    /// The first variants of a character.
    pub open spec fn first_variants(&self, word: Seq<char>) -> Seq<Seq<char>> {
        let all = self.variants_of_char(word);
        if all.len() <= MAX_VARIANTS {
            all
        } else {
            all.take(MAX_VARIANTS as int)
        }
    }

    /// The variants of the characters of the given entries, one entry after the other.
    pub open spec fn variants_at(&self, s: Seq<usize>) -> Seq<Seq<char>>
        decreases s.len(),
    {
        if s.len() == 0 {
            seq![]
        } else {
            self.variants_at(s.drop_last()) + self.variants_of_char(
                self.list()[s.last() as int].word,
            )
        }
    }

    /// The variants of the exact matches that are themselves neither exact nor partial matches.
    pub open spec fn further_variants(&self, exact: Seq<usize>, partial: Seq<usize>) -> Seq<
        Seq<char>,
    > {
        distinct::first_distinct(
            self.variants_at(exact).filter(
                |x: Seq<char>| !words_at(self.list(), exact + partial).contains(x),
            ),
            MAX_VARIANTS as nat,
        )
    }
}

/// The description of a character of which no components are known, given its pinyin.
pub fn bare_word(word: &str, pinyin: String) -> (r: Word)
    ensures
        r@ == bare(word@, pinyin@),
{
    let chars = chars_of(word);
    let mut codepoint = String::new();
    let mut glyph_url: Option<String> = None;
    if chars.len() > 0 {
        codepoint = label_of(chars[0]);
        glyph_url = glyph_of(chars[0]);
    }
    let r = Word {
        word: word.to_owned(),
        pinyin,
        codepoint,
        parts: Vec::new(),
        structure: None,
        simple_parts: Vec::new(),
        glyph_url,
    };
    assert(r@ =~= bare(word@, pinyin@));
    r
}

/// Whether two lists hold the same texts in the same order.
fn same_texts(a: &Vec<String>, b: &Vec<String>) -> (r: bool)
    ensures
        r == (a.deep_view() == b.deep_view()),
{
    if a.len() != b.len() {
        assert(a.deep_view().len() != b.deep_view().len());
        return false;
    }
    for i in 0..a.len()
        invariant
            a@.len() == b@.len(),
            forall|j: int| 0 <= j < i ==> a.deep_view()[j] == b.deep_view()[j],
    {
        assert(a.deep_view()[i as int] == a@[i as int]@);
        assert(b.deep_view()[i as int] == b@[i as int]@);
        if a[i] != b[i] {
            return false;
        }
    }
    assert(a.deep_view() =~= b.deep_view());
    true
}

impl Dictionary {
    /// The description of a character of which no components are known.
    pub fn word_without_parts(&self, word: &str) -> (r: Word)
        ensures
            r@ == bare(word@, reading::first_pinyin(word@)),
    {
        bare_word(word, pinyin_of_first(word))
    }

    /// The description of the character of an entry, given its pinyin.
    pub fn describe(&self, entry: &Entry, pinyin: String) -> (r: Word)
        ensures
            r@ == self.described(entry@, pinyin@),
    {
        let mut word = bare_word(entry.word.as_str(), pinyin);
        word.parts = copy_texts(&entry.parts);
        match self.structures.get(entry.word.as_str()) {
            Some(structure) => {
                if !same_texts(&structure.parts, &word.parts) {
                    word.structure = Some(structure.name.clone());
                    word.simple_parts = copy_texts(&structure.parts);
                }
            },
            None => {},
        }
        assert(word@ =~= self.described(entry@, pinyin@));
        word
    }

    /// The description of the character of an entry.
    pub fn word_from_entry(&self, entry: &Entry) -> (r: Word)
        ensures
            r@ == self.entry_word(entry@),
    {
        self.describe(entry, pinyin_of_first(entry.word.as_str()))
    }

    /// The descriptions of the characters of the entries at the given positions.
    pub fn words_for(&self, indexes: &[usize]) -> (r: Vec<Word>)
        requires
            forall|i: int| 0 <= i < indexes@.len() ==> indexes@[i] < self.list().len(),
        ensures
            word_views(r@) == indexes@.map_values(
                |i: usize| self.entry_word(self.list()[i as int]),
            ),
    {
        let mut out: Vec<Word> = Vec::new();
        let ghost f = |i: usize| self.entry_word(self.list()[i as int]);
        for k in 0..indexes.len()
            invariant
                forall|i: int| 0 <= i < indexes@.len() ==> indexes@[i] < self.list().len(),
                f == (|i: usize| self.entry_word(self.list()[i as int])),
                word_views(out@) == indexes@.take(k as int).map_values(f),
        {
            let index: usize = indexes[k];
            let word = self.word_from_entry(&self.entries[index]);
            proof {
                lemma_word_views_push(out@, word, indexes@, k as int, f);
            }
            out.push(word);
        }
        assert(indexes@.take(indexes@.len() as int) =~= indexes@);
        out
    }

    /// The description of a character.
    pub fn word_for_char(&self, word: &str) -> (r: Word)
        requires
            self.words_in_range(),
        ensures
            r@ == self.char_word(word@),
    {
        match self.by_word.get(word) {
            Some(index) => {
                self.word_from_entry(&self.entries[*index])
            },
            None => self.word_without_parts(word),
        }
    }

    /// The descriptions of the variants of a character.
    pub fn character_variants(&self, word: &str) -> (r: Vec<Word>)
        requires
            self.words_in_range(),
        ensures
            word_views(r@) == self.first_variants(word@).map_values(
                |x: Seq<char>| self.char_word(x),
            ),
    {
        let mut out: Vec<Word> = Vec::new();
        let ghost all = self.variants_of_char(word@);
        let ghost f = |x: Seq<char>| self.char_word(x);
        match self.char_variants.get(word) {
            Some(list) => {
                assert(all == list.deep_view());
                let n: usize = if list.len() <= MAX_VARIANTS {
                    list.len()
                } else {
                    MAX_VARIANTS
                };
                for k in 0..n
                    invariant
                        self.words_in_range(),
                        n <= list@.len(),
                        all == list.deep_view(),
                        f == (|x: Seq<char>| self.char_word(x)),
                        word_views(out@) == all.take(k as int).map_values(f),
                {
                    assert(all[k as int] == list@[k as int]@);
                    let variant = self.word_for_char(list[k].as_str());
                    proof {
                        lemma_word_views_push(out@, variant, all, k as int, f);
                    }
                    out.push(variant);
                }
                assert(all.take(all.len() as int) =~= all);
            },
            None => {
                assert(word_views(out@) =~= all.map_values(f));
            },
        }
        out
    }

    /// The descriptions of the variants of the exact matches that are themselves neither exact nor
    /// partial matches.
    pub fn exact_variants(&self, exact: &[usize], partial: &[usize]) -> (r: Vec<Word>)
        requires
            self.words_in_range(),
            forall|i: int| 0 <= i < exact@.len() ==> exact@[i] < self.list().len(),
            forall|i: int| 0 <= i < partial@.len() ==> partial@[i] < self.list().len(),
        ensures
            word_views(r@) == self.further_variants(exact@, partial@).map_values(
                |x: Seq<char>| self.char_word(x),
            ),
    {
        let mut seen = StringHashSet::new();
        let ghost es = self.list();
        let ghost known = words_at(es, exact@ + partial@);
        self.see_words(exact, &mut seen);
        self.see_words(partial, &mut seen);
        proof {
            let f = |i: usize| es[i as int].word;
            let a = exact@.map_values(f);
            let b = partial@.map_values(f);
            assert((exact@ + partial@).map_values(f) =~= a + b);
            vstd::seq_lib::seq_to_set_distributes_over_add(a, b);
            assert(seen@ =~= known);
        }
        let names = self.further_names(exact, &seen);
        let ghost chosen = names.deep_view();
        let ghost f = |x: Seq<char>| self.char_word(x);
        assert(chosen == self.further_variants(exact@, partial@));
        let mut out: Vec<Word> = Vec::new();
        for k in 0..names.len()
            invariant
                self.words_in_range(),
                chosen == names.deep_view(),
                f == (|x: Seq<char>| self.char_word(x)),
                word_views(out@) == chosen.take(k as int).map_values(f),
        {
            assert(chosen[k as int] == names@[k as int]@);
            let word = self.word_for_char(names[k].as_str());
            proof {
                lemma_word_views_push(out@, word, chosen, k as int, f);
            }
            out.push(word);
        }
        assert(chosen.take(chosen.len() as int) =~= chosen);
        out
    }

    /// Adds the characters of the entries at the given positions.
    fn see_words(&self, indexes: &[usize], seen: &mut StringHashSet)
        requires
            forall|i: int| 0 <= i < indexes@.len() ==> indexes@[i] < self.list().len(),
        ensures
            final(seen)@ == old(seen)@ + words_at(self.list(), indexes@),
    {
        let ghost es = self.list();
        let ghost f = |i: usize| es[i as int].word;
        let ghost all = indexes@.map_values(f);
        assert(seen@ =~= old(seen)@ + all.take(0).to_set());
        for k in 0..indexes.len()
            invariant
                es == self.list(),
                f == (|i: usize| es[i as int].word),
                all == indexes@.map_values(f),
                forall|i: int| 0 <= i < indexes@.len() ==> indexes@[i] < es.len(),
                seen@ == old(seen)@ + all.take(k as int).to_set(),
        {
            let index: usize = indexes[k];
            let ghost before = seen@;
            seen.insert(self.entries[index].word.clone());
            proof {
                let w = all[k as int];
                assert(w == self.entries@[index as int].word@);
                all.take(k as int).lemma_push_to_set_commute(w);
                assert(all.take(k as int).push(w) =~= all.take(k + 1));
                assert(seen@ =~= old(seen)@ + all.take(k + 1).to_set());
            }
        }
        assert(all.take(all.len() as int) =~= all);
    }

    /// The variants of the exact matches that were not seen, each once.
    fn further_names(&self, exact: &[usize], seen: &StringHashSet) -> (r: Vec<String>)
        requires
            forall|i: int| 0 <= i < exact@.len() ==> exact@[i] < self.list().len(),
        ensures
            r.deep_view() == distinct::first_distinct(
                self.variants_at(exact@).filter(|x: Seq<char>| !seen@.contains(x)),
                MAX_VARIANTS as nat,
            ),
    {
        let ghost p = |x: Seq<char>| !seen@.contains(x);
        let ghost all = self.variants_at(exact@).filter(p);
        let mut out: Vec<String> = Vec::new();
        let ghost mut done: Seq<Seq<char>> = seq![];
        proof {
            reveal(Seq::filter);
            assert(out.deep_view() =~= done.remove_duplicates(seq![]));
            assert(self.variants_at(exact@.take(0)).filter(p) =~= done);
        }
        for k in 0..exact.len()
            invariant
                forall|i: int| 0 <= i < exact@.len() ==> exact@[i] < self.list().len(),
                p == (|x: Seq<char>| !seen@.contains(x)),
                all == self.variants_at(exact@).filter(p),
                done == self.variants_at(exact@.take(k as int)).filter(p),
                out.deep_view() == done.remove_duplicates(seq![]),
                out@.len() < MAX_VARIANTS,
        {
            let index: usize = exact[k];
            let ghost before = self.variants_at(exact@.take(k as int));
            let ghost mine = self.variants_of_char(self.list()[index as int].word);
            proof {
                assert(exact@.take(k + 1).drop_last() =~= exact@.take(k as int));
                assert(self.variants_at(exact@.take(k + 1)) == before + mine);
                assert(before + mine.take(0) =~= before);
                self.lemma_variants_prefix(exact@, k + 1);
            }
            match self.char_variants.get(self.entries[index].word.as_str()) {
                Some(list) => {
                    for j in 0..list.len()
                        invariant
                            p == (|x: Seq<char>| !seen@.contains(x)),
                            all == self.variants_at(exact@).filter(p),
                            mine == list.deep_view(),
                            self.variants_at(exact@.take(k + 1)) == before + mine,
                            self.variants_at(exact@.take(k + 1)).is_prefix_of(
                                self.variants_at(exact@),
                            ),
                            done == (before + mine.take(j as int)).filter(p),
                            out.deep_view() == done.remove_duplicates(seq![]),
                            out@.len() < MAX_VARIANTS,
                    {
                        let ghost x = mine[j as int];
                        let ghost so_far = before + mine.take(j as int);
                        proof {
                            assert(x == list@[j as int]@);
                            so_far.lemma_filter_push(x, p);
                            assert(so_far.push(x) =~= before + mine.take(j + 1));
                        }
                        if !seen.contains(list[j].as_str()) {
                            add_distinct(&mut out, &list[j], Ghost(done));
                            proof {
                                done = done.push(x);
                            }
                            if out.len() == MAX_VARIANTS {
                                proof {
                                    let whole = self.variants_at(exact@);
                                    let upto = before + mine.take(j + 1);
                                    let rest = whole.skip(upto.len() as int);
                                    assert(upto + rest =~= whole) by {
                                        assert forall|i: int| 0 <= i < upto.len() implies upto[i]
                                            == whole[i] by {
                                            let n = (before + mine).len() as int;
                                            assert(whole.subrange(0, n)[i] == (before + mine)[i]);
                                        }
                                    }
                                    Seq::filter_distributes_over_add(upto, rest, p);
                                    assert(out.deep_view().len() == out@.len());
                                    distinct::lemma_first_distinct_full(
                                        done,
                                        rest.filter(p),
                                        MAX_VARIANTS as nat,
                                    );
                                }
                                return out;
                            }
                        }
                    }
                    assert(mine.take(mine.len() as int) =~= mine);
                },
                None => {
                    assert(before + mine =~= before);
                },
            }
        }
        proof {
            assert(exact@.take(exact@.len() as int) =~= exact@);
            assert(out.deep_view().len() == out@.len());
        }
        out
    }

    /// A variant of the exact matches is a variant of one of them.
    proof fn lemma_variants_source(&self, s: Seq<usize>, x: Seq<char>)
        requires
            self.variants_at(s).contains(x),
        ensures
            exists|k: int|
                0 <= k < s.len() && self.variants_of_char(
                    self.list()[#[trigger] s[k] as int].word,
                ).contains(x),
        decreases s.len(),
    {
        if s.len() > 0 {
            let rest = self.variants_at(s.drop_last());
            let mine = self.variants_of_char(self.list()[s.last() as int].word);
            let i = choose|i: int| 0 <= i < (rest + mine).len() && (rest + mine)[i] == x;
            if i < rest.len() {
                assert(rest[i] == x);
                self.lemma_variants_source(s.drop_last(), x);
                let k = choose|k: int|
                    0 <= k < s.drop_last().len() && self.variants_of_char(
                        self.list()[#[trigger] s.drop_last()[k] as int].word,
                    ).contains(x);
                assert(s[k] == s.drop_last()[k]);
            } else {
                assert(mine[i - rest.len()] == x);
                assert(s[s.len() - 1] == s.last());
            }
        }
    }

    /// The variants of the first entries come first in the list of all.
    proof fn lemma_variants_prefix(&self, s: Seq<usize>, n: int)
        requires
            0 <= n <= s.len(),
        ensures
            self.variants_at(s.take(n)).is_prefix_of(self.variants_at(s)),
        decreases s.len(),
    {
        let a = self.variants_at(s.take(n));
        let b = self.variants_at(s);
        if n == s.len() {
            assert(s.take(n) =~= s);
        } else {
            self.lemma_variants_prefix(s.drop_last(), n);
            assert(s.drop_last().take(n) =~= s.take(n));
            let c = self.variants_at(s.drop_last());
            assert forall|i: int| 0 <= i < a.len() implies a[i] == b[i] by {
                assert(c.subrange(0, a.len() as int)[i] == a[i]);
            }
        }
        assert(a =~= b.subrange(0, a.len() as int));
    }
}

/// The variants that a search adds to its matches are variants of exact matches that are not among
/// the matches themselves; each is given once, and there are no more than a search lists.
pub proof fn law_further_variants_are_no_matches(
    d: &Dictionary,
    exact: Seq<usize>,
    partial: Seq<usize>,
)
    ensures
        d.further_variants(exact, partial).len() <= MAX_VARIANTS,
        d.further_variants(exact, partial).no_duplicates(),
        forall|x: Seq<char>| #[trigger]
            d.further_variants(exact, partial).contains(x) ==> {
                &&& forall|k: int|
                    0 <= k < exact.len() ==> d.list()[#[trigger] exact[k] as int].word != x
                &&& forall|k: int|
                    0 <= k < partial.len() ==> d.list()[#[trigger] partial[k] as int].word != x
                &&& exists|k: int|
                    0 <= k < exact.len() && d.variants_of_char(
                        d.list()[#[trigger] exact[k] as int].word,
                    ).contains(x)
            },
{
    let known = words_at(d.list(), exact + partial);
    let p = |x: Seq<char>| !known.contains(x);
    let stream = d.variants_at(exact);
    distinct::law_first_distinct(stream.filter(p), MAX_VARIANTS as nat);
    assert forall|x: Seq<char>| #[trigger]
        d.further_variants(exact, partial).contains(x) implies {
        &&& forall|k: int|
            0 <= k < exact.len() ==> d.list()[#[trigger] exact[k] as int].word != x
        &&& forall|k: int|
            0 <= k < partial.len() ==> d.list()[#[trigger] partial[k] as int].word != x
        &&& exists|k: int|
            0 <= k < exact.len() && d.variants_of_char(
                d.list()[#[trigger] exact[k] as int].word,
            ).contains(x)
    } by {
        assert(stream.filter(p).contains(x));
        stream.lemma_filter_contains_rev(p, x);
        let w = (exact + partial).map_values(|i: usize| d.list()[i as int].word);
        assert forall|k: int| 0 <= k < exact.len() implies d.list()[#[trigger] exact[k] as int].word
            != x by {
            assert(w[k] == d.list()[exact[k] as int].word);
            assert(w.to_set().contains(w[k]));
        }
        assert forall|k: int| 0 <= k < partial.len() implies d.list()[#[trigger] partial[
            k
        ] as int].word != x by {
            assert(w[exact.len() + k] == d.list()[partial[k] as int].word);
            assert(w.to_set().contains(w[exact.len() + k]));
        }
        d.lemma_variants_source(exact, x);
    }
}

} // verus!
