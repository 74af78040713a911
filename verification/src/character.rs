//! The description of a character for learners.

use vstd::prelude::*;

use crate::dictionary::{self, Dictionary};
use crate::distinct::{self, add_distinct};
use crate::reading::{self, pinyin_of_first};
use crate::text::{self, char_text, contains, join, push_text, starts_with};

verus! {

/// How many phrases show the use of a character.
pub const PHRASES: usize = 2;

/// A character: its radical, its other components, the strokes of those, its pinyin, and phrases
/// with it.
#[derive(Debug, PartialEq)]
pub struct CharacterWord {
    pub word: String,
    pub bushou: String,
    pub exclude_bushou: String,
    pub exclude_bushou_stroke: u32,
    pub pinyin: String,
    pub zuci: Vec<String>,
}

/// What the description of a character says.
#[verifier::ext_equal]
pub struct CharacterWordView {
    pub word: Seq<char>,
    pub bushou: Seq<char>,
    pub exclude_bushou: Seq<char>,
    pub exclude_bushou_stroke: int,
    pub pinyin: Seq<char>,
    pub zuci: Seq<Seq<char>>,
}

impl View for CharacterWord {
    type V = CharacterWordView;

    open spec fn view(&self) -> CharacterWordView {
        CharacterWordView {
            word: self.word@,
            bushou: self.bushou@,
            exclude_bushou: self.exclude_bushou@,
            exclude_bushou_stroke: self.exclude_bushou_stroke as int,
            pinyin: self.pinyin@,
            zuci: self.zuci.deep_view(),
        }
    }
}

/// What the descriptions say.
pub open spec fn character_views(s: Seq<CharacterWord>) -> Seq<CharacterWordView> {
    s.map_values(|w: CharacterWord| w@)
}

/// The radical among components: the first, or the empty text where there is none.
pub open spec fn radical_of(parts: Seq<Seq<char>>) -> Seq<char> {
    if parts.len() > 0 {
        parts[0]
    } else {
        seq![]
    }
}

/// The components besides the radical.
pub open spec fn others_of(parts: Seq<Seq<char>>) -> Seq<Seq<char>> {
    if parts.len() > 0 {
        parts.skip(1)
    } else {
        seq![]
    }
}

/// The texts of `s`, and empty texts up to `n`.
pub open spec fn filled(s: Seq<Seq<char>>, n: nat) -> Seq<Seq<char>> {
    Seq::new(
        n,
        |i: int|
            if i < s.len() {
                s[i]
            } else {
                seq![]
            },
    )
}

/// The phrases of interest: those that start with `c`, or those that have it anywhere.
pub open spec fn with_text(phrases: Seq<Seq<char>>, c: Seq<char>, first: bool) -> Seq<Seq<char>> {
    phrases.filter(
        |p: Seq<char>|
            if first {
                c.is_prefix_of(p)
            } else {
                text::occurs_in(p, c)
            },
    )
}

impl Dictionary {
    /// The first different phrases with `c`: those that start with it come first. Where there are
    /// too few, empty texts take their place.
    pub open spec fn phrases_with(&self, c: Seq<char>) -> Seq<Seq<char>> {
        filled(
            distinct::first_distinct(
                with_text(self.phrases.deep_view(), c, true) + with_text(
                    self.phrases.deep_view(),
                    c,
                    false,
                ),
                PHRASES as nat,
            ),
            PHRASES as nat,
        )
    }

    /// The description of a character, given its pinyin: it is taken from the first entry of the
    /// character, where it has one.
    pub open spec fn learned(&self, c: Seq<char>, pinyin: Seq<char>) -> CharacterWordView {
        match dictionary::filed_one(self.by_word@, c) {
            Some(i) => CharacterWordView {
                word: self.list()[i as int].word,
                bushou: radical_of(self.list()[i as int].parts),
                exclude_bushou: text::joined(others_of(self.list()[i as int].parts), ' '),
                exclude_bushou_stroke: self.list()[i as int].strokes_after_radical,
                pinyin,
                zuci: self.phrases_with(c),
            },
            None => CharacterWordView {
                word: c,
                bushou: seq![],
                exclude_bushou: seq![],
                exclude_bushou_stroke: 0,
                pinyin,
                zuci: self.phrases_with(c),
            },
        }
    }

    /// The description of a character.
    pub open spec fn learned_char(&self, c: Seq<char>) -> CharacterWordView {
        self.learned(c, reading::first_pinyin(c))
    }

    /// The descriptions of the characters of a text.
    pub open spec fn learned_text(&self, s: Seq<char>) -> Seq<CharacterWordView> {
        s.map_values(|c: char| self.learned_char(seq![c]))
    }

    /// Appends the different phrases with `character`, until there are enough of them.
    fn add_phrases(
        &self,
        character: &str,
        first: bool,
        out: &mut Vec<String>,
        Ghost(before): Ghost<Seq<Seq<char>>>,
    )
        requires
            old(out).deep_view() == before.remove_duplicates(seq![]),
            old(out)@.len() < PHRASES,
        ensures
            final(out).deep_view() == distinct::first_distinct(
                before + with_text(self.phrases.deep_view(), character@, first),
                PHRASES as nat,
            ),
    {
        let ghost all = self.phrases.deep_view();
        let ghost c = character@;
        let ghost p = |x: Seq<char>|
            if first {
                c.is_prefix_of(x)
            } else {
                text::occurs_in(x, c)
            };
        let ghost mut done = before;
        assert(with_text(all, c, first) == all.filter(p));
        proof {
            reveal(Seq::filter);
            assert(before + all.take(0).filter(p) =~= before);
        }
        for i in 0..self.phrases.len()
            invariant
                all == self.phrases.deep_view(),
                c == character@,
                p == (|x: Seq<char>|
                    if first {
                        c.is_prefix_of(x)
                    } else {
                        text::occurs_in(x, c)
                    }),
                with_text(all, c, first) == all.filter(p),
                done == before + all.take(i as int).filter(p),
                out.deep_view() == done.remove_duplicates(seq![]),
                out@.len() < PHRASES,
        {
            let ghost x = all[i as int];
            assert(x == self.phrases@[i as int]@);
            proof {
                all.take(i as int).lemma_filter_push(x, p);
                assert(all.take(i as int).push(x) =~= all.take(i + 1));
            }
            let phrase = self.phrases[i].as_str();
            let wanted: bool = if first {
                starts_with(phrase, character)
            } else {
                contains(phrase, character)
            };
            if wanted {
                add_distinct(out, &self.phrases[i], Ghost(done));
                proof {
                    assert(done.push(x) =~= before + all.take(i + 1).filter(p));
                    done = done.push(x);
                    assert(out.deep_view().len() == out@.len());
                }
                if out.len() == PHRASES {
                    proof {
                        let rest = all.skip(i + 1);
                        assert(all.take(i + 1) + rest =~= all);
                        Seq::filter_distributes_over_add(all.take(i + 1), rest, p);
                        assert(done + rest.filter(p) =~= before + all.filter(p));
                        distinct::lemma_first_distinct_full(
                            done,
                            rest.filter(p),
                            PHRASES as nat,
                        );
                    }
                    return;
                }
            }
        }
        proof {
            assert(all.take(all.len() as int) =~= all);
            assert(out.deep_view().len() == out@.len());
        }
    }

    /// Phrases with a character, those that start with it first.
    pub fn phrases_for(&self, character: &str) -> (r: Vec<String>)
        ensures
            r.deep_view() == self.phrases_with(character@),
    {
        let ghost all = self.phrases.deep_view();
        let ghost starting = with_text(all, character@, true);
        let ghost having = with_text(all, character@, false);
        let mut out: Vec<String> = Vec::new();
        let ghost none = Seq::<Seq<char>>::empty();
        assert(out.deep_view() =~= none.remove_duplicates(none));
        self.add_phrases(character, true, &mut out, Ghost(none));
        assert(none + starting =~= starting);
        assert(out.deep_view().len() == out@.len());
        if out.len() < PHRASES {
            self.add_phrases(character, false, &mut out, Ghost(starting));
        } else {
            proof {
                distinct::lemma_first_distinct_full(starting, having, PHRASES as nat);
            }
        }
        let ghost found = out.deep_view();
        assert(found == distinct::first_distinct(starting + having, PHRASES as nat));
        assert(out@.len() == found.len());
        while out.len() < PHRASES
            invariant
                found.len() <= out@.len() <= PHRASES,
                forall|i: int|
                    0 <= i < out@.len() ==> #[trigger] out.deep_view()[i] == (if i < found.len() {
                        found[i]
                    } else {
                        seq![]
                    }),
            decreases PHRASES - out@.len(),
        {
            let ghost o = out.deep_view();
            assert(o.len() == out@.len());
            let blank = String::new();
            assert(blank@ =~= seq![]);
            push_text(&mut out, blank);
            assert(out.deep_view().len() == out@.len());
            assert forall|i: int| 0 <= i < out@.len() implies #[trigger] out.deep_view()[i] == (
            if i < found.len() {
                found[i]
            } else {
                seq![]
            }) by {
                if i < o.len() {
                    assert(out.deep_view()[i] == o[i]);
                }
            }
        }
        assert(out.deep_view() =~= self.phrases_with(character@));
        out
    }

    /// The description of a character, given its pinyin.
    pub fn learn(&self, character: &str, pinyin: String) -> (r: CharacterWord)
        requires
            self.words_in_range(),
        ensures
            r@ == self.learned(character@, pinyin@),
    {
        let zuci = self.phrases_for(character);
        match self.by_word.get(character) {
            Some(index) => {
                let entry = &self.entries[*index];
                let ghost parts = entry.parts.deep_view();
                let mut bushou = String::new();
                let mut others: Vec<String> = Vec::new();
                assert(bushou@ =~= seq![]);
                assert(others.deep_view() =~= others_of(parts.take(0)));
                for i in 0..entry.parts.len()
                    invariant
                        parts == entry.parts.deep_view(),
                        bushou@ == radical_of(parts.take(i as int)),
                        others.deep_view() == others_of(parts.take(i as int)),
                {
                    assert(parts[i as int] == entry.parts@[i as int]@);
                    if i == 0 {
                        bushou = entry.parts[i].clone();
                    } else {
                        push_text(&mut others, entry.parts[i].clone());
                    }
                    assert(others.deep_view() =~= others_of(parts.take(i + 1)));
                }
                assert(parts.take(parts.len() as int) =~= parts);
                let r = CharacterWord {
                    word: entry.word.clone(),
                    bushou,
                    exclude_bushou: join(&others, ' '),
                    exclude_bushou_stroke: entry.strokes_after_radical,
                    pinyin,
                    zuci,
                };
                assert(r@ =~= self.learned(character@, pinyin@));
                r
            },
            None => {
                let r = CharacterWord {
                    word: character.to_owned(),
                    bushou: String::new(),
                    exclude_bushou: String::new(),
                    exclude_bushou_stroke: 0,
                    pinyin,
                    zuci,
                };
                assert(r@ =~= self.learned(character@, pinyin@));
                r
            },
        }
    }

    /// The description of a character.
    pub fn character_word(&self, character: &str) -> (r: CharacterWord)
        requires
            self.words_in_range(),
        ensures
            r@ == self.learned_char(character@),
    {
        self.learn(character, pinyin_of_first(character))
    }

    /// The descriptions of the characters of a text.
    pub fn character_words(&self, text: &str) -> (r: Vec<CharacterWord>)
        requires
            self.words_in_range(),
        ensures
            character_views(r@) == self.learned_text(text@),
    {
        let ghost all = self.learned_text(text@);
        let mut out: Vec<CharacterWord> = Vec::new();
        for x in it: text.chars()
            invariant
                self.words_in_range(),
                it.seq() == text@,
                all == self.learned_text(text@),
                character_views(out@) == all.take(it.index()),
        {
            let word = self.character_word(char_text(x).as_str());
            let ghost before = character_views(out@);
            let ghost said = word@;
            out.push(word);
            assert(character_views(out@) =~= before.push(said));
            assert(said == all[it.index()]);
            assert(character_views(out@) =~= all.take(it.index() + 1));
        }
        assert(all.take(text@.len() as int) =~= all);
        out
    }
}

/// The phrases with a character are phrases of the dictionary that have it; where there are too few
/// of them, the rest is empty. No phrase is given twice. Where a phrase has the character, one is
/// given, and where one starts with it, the first one does.
pub proof fn law_phrases_have_the_character(d: &Dictionary, c: Seq<char>)
    ensures
        d.phrases_with(c).len() == PHRASES,
        forall|i: int|
            0 <= i < PHRASES ==> {
                ||| (#[trigger] d.phrases_with(c)[i]).len() == 0
                ||| d.phrases.deep_view().contains(d.phrases_with(c)[i]) && text::occurs_in(
                    d.phrases_with(c)[i],
                    c,
                )
            },
        d.phrases_with(c)[0] == d.phrases_with(c)[1] ==> d.phrases_with(c)[0].len() == 0,
        forall|p: Seq<char>| #[trigger]
            d.phrases.deep_view().contains(p) && text::occurs_in(p, c)
                ==> d.phrases.deep_view().contains(d.phrases_with(c)[0]) && text::occurs_in(
                d.phrases_with(c)[0],
                c,
            ),
        forall|p: Seq<char>| #[trigger]
            d.phrases.deep_view().contains(p) && c.is_prefix_of(p) ==> c.is_prefix_of(
                d.phrases_with(c)[0],
            ),
{
    let all = d.phrases.deep_view();
    let starting = with_text(all, c, true);
    let having = with_text(all, c, false);
    let both = starting + having;
    let found = distinct::first_distinct(both, PHRASES as nat);
    distinct::law_first_distinct(both, PHRASES as nat);
    assert forall|x: Seq<char>| #[trigger] both.contains(x) implies all.contains(x)
        && text::occurs_in(x, c) by {
        lemma_with_text(all, c, true, x);
        lemma_with_text(all, c, false, x);
        let i = choose|i: int| 0 <= i < both.len() && both[i] == x;
        if i < starting.len() {
            assert(starting[i] == x);
            assert(text::occurs_at(x, c, 0)) by {
                assert(x.subrange(0, c.len() as int) =~= c);
            }
        } else {
            assert(having[i - starting.len()] == x);
        }
    }
    assert forall|i: int| 0 <= i < PHRASES implies {
        ||| (#[trigger] d.phrases_with(c)[i]).len() == 0
        ||| all.contains(d.phrases_with(c)[i]) && text::occurs_in(d.phrases_with(c)[i], c)
    } by {
        if i < found.len() {
            assert(found.contains(found[i]));
            assert(both.contains(found[i]));
        }
    }
    assert forall|p: Seq<char>| #[trigger] all.contains(p) && text::occurs_in(p, c) implies {
        &&& all.contains(d.phrases_with(c)[0])
        &&& text::occurs_in(d.phrases_with(c)[0], c)
    } by {
        lemma_with_text(all, c, false, p);
        let i = choose|i: int| 0 <= i < having.len() && having[i] == p;
        assert(both[starting.len() + i] == p);
        assert(both.contains(both[0]));
    }
    assert forall|p: Seq<char>| #[trigger] all.contains(p) && c.is_prefix_of(p) implies {
        c.is_prefix_of(d.phrases_with(c)[0])
    } by {
        lemma_with_text(all, c, true, p);
        assert(both[0] == starting[0]);
        lemma_with_text(all, c, true, starting[0]);
        assert(starting.contains(starting[0]));
    }
}

proof fn lemma_with_text(phrases: Seq<Seq<char>>, c: Seq<char>, first: bool, x: Seq<char>)
    ensures
        with_text(phrases, c, first).contains(x) <==> phrases.contains(x) && (if first {
            c.is_prefix_of(x)
        } else {
            text::occurs_in(x, c)
        }),
{
    let p = |x: Seq<char>|
        if first {
            c.is_prefix_of(x)
        } else {
            text::occurs_in(x, c)
        };
    if with_text(phrases, c, first).contains(x) {
        phrases.lemma_filter_contains_rev(p, x);
    }
    if phrases.contains(x) && p(x) {
        let i = choose|i: int| 0 <= i < phrases.len() && phrases[i] == x;
        phrases.lemma_filter_contains(p, i);
    }
}

/// A lookup describes every character of the text, in order, and gives each its pinyin and as many
/// phrases as every other.
pub proof fn law_every_character_is_described(d: &Dictionary, s: Seq<char>)
    requires
        d.wf(),
    ensures
        d.learned_text(s).len() == s.len(),
        forall|i: int|
            0 <= i < s.len() ==> {
                &&& (#[trigger] d.learned_text(s)[i]).word == seq![s[i]]
                &&& d.learned_text(s)[i].pinyin == reading::blank_or(reading::toned_pinyin(s[i]))
                &&& d.learned_text(s)[i].zuci.len() == PHRASES
            },
{
    assert(d.list().len() == d.entries.len());
    assert forall|i: int| 0 <= i < s.len() implies {
        &&& (#[trigger] d.learned_text(s)[i]).word == seq![s[i]]
        &&& d.learned_text(s)[i].pinyin == reading::blank_or(reading::toned_pinyin(s[i]))
        &&& d.learned_text(s)[i].zuci.len() == PHRASES
    } by {
        let c = seq![s[i]];
        dictionary::lemma_first_of(d.list(), c);
        assert(dictionary::filed_one(d.by_word@, c) == dictionary::first_of(d.list(), c));
    }
}

} // verus!
