//! The replies of the service.

use vstd::prelude::*;

use crate::character::{self, CharacterWord};
use crate::codepoint::{self, parse_codepoint};
use crate::dictionary::{self, Dictionary};
use crate::han::{self, han_characters};
use crate::http::{api_error, ApiError, Refusal};
use crate::laws;
use crate::rank::MAX_RESULTS;
use crate::reading::{self, look_up, or_blank};
use crate::search;
use crate::text::{self, char_text, chars_of, text_of, trim};
use crate::words::{self, Word, WordView, MAX_VARIANTS};

verus! {

/// The most components that a search takes.
pub const MAX_INPUT_CHARS: usize = 8;

/// The most characters that a lookup takes.
pub const MAX_LOOKUP_CHARS: usize = 204;

/// The reply to a search.
#[derive(Debug, PartialEq)]
pub struct SearchResponse {
    pub parts: String,
    pub exact: Vec<Word>,
    pub partial: Vec<Word>,
    pub variants: Vec<Word>,
    pub character_variants: Vec<Word>,
    pub single_word: Option<Word>,
}

/// What the reply to a search says.
#[verifier::ext_equal]
pub struct SearchView {
    pub parts: Seq<char>,
    pub exact: Seq<WordView>,
    pub partial: Seq<WordView>,
    pub variants: Seq<WordView>,
    pub character_variants: Seq<WordView>,
    pub single_word: Option<WordView>,
}

impl View for SearchResponse {
    type V = SearchView;

    open spec fn view(&self) -> SearchView {
        SearchView {
            parts: self.parts@,
            exact: words::word_views(self.exact@),
            partial: words::word_views(self.partial@),
            variants: words::word_views(self.variants@),
            character_variants: words::word_views(self.character_variants@),
            single_word: match self.single_word {
                Some(w) => Some(w@),
                None => None,
            },
        }
    }
}

/// The reply to a lookup of characters.
#[derive(Debug, PartialEq)]
pub struct CharacterResponse {
    pub text: String,
    pub words: Vec<CharacterWord>,
}

/// The reply to a lookup of a grade's characters.
#[derive(Debug, PartialEq)]
pub struct GradeResponse {
    pub grade: String,
    pub text: String,
    pub words: Vec<CharacterWord>,
}

/// A character and its pinyin.
#[derive(Debug, PartialEq)]
pub struct PinyinCharacter {
    pub character: String,
    pub pinyin: String,
}

impl View for PinyinCharacter {
    type V = (Seq<char>, Seq<char>);

    open spec fn view(&self) -> (Seq<char>, Seq<char>) {
        (self.character@, self.pinyin@)
    }
}

/// The reply to a lookup of pinyin.
#[derive(Debug, PartialEq)]
pub struct PinyinResponse {
    pub text: String,
    pub truncated: bool,
    pub characters: Vec<PinyinCharacter>,
}

/// What the characters and their pinyin say.
pub open spec fn pinyin_views(s: Seq<PinyinCharacter>) -> Seq<(Seq<char>, Seq<char>)> {
    s.map_values(|p: PinyinCharacter| p@)
}

/// The text of an argument that may be absent.
pub open spec fn given(argument: Option<&str>) -> Option<Seq<char>> {
    match argument {
        Some(s) => Some(s@),
        None => None,
    }
}

/// The components that a search asks for: a code point stands for its character, any other text
/// for itself without the white space around it.
pub open spec fn asked(raw: Seq<char>) -> Seq<char> {
    match codepoint::codepoint_text(text::trimmed(raw)) {
        Some(s) => s,
        None => text::trimmed(raw),
    }
}

/// Why a search is refused, if it is.
pub open spec fn search_refusal(dictionary: &Dictionary, raw: Option<Seq<char>>) -> Option<
    Refusal,
> {
    match raw {
        None => Some(Refusal { status: 400, error: "the parts query parameter is required"@ }),
        Some(s) => if asked(s).len() == 0 || asked(s).len() > MAX_INPUT_CHARS {
            Some(
                Refusal {
                    status: 400,
                    error: "parts must contain 1 to 8 supported Han characters"@,
                },
            )
        } else if !dictionary.supported(asked(s)) {
            Some(Refusal { status: 400, error: "parts contains an unsupported component"@ })
        } else {
            None
        },
    }
}

/// Why a lookup of characters is refused, if it is.
pub open spec fn lookup_refusal(raw: Option<Seq<char>>) -> Option<Refusal> {
    match raw {
        None => Some(Refusal { status: 400, error: "the text query parameter is required"@ }),
        Some(s) => if han::han_only(s).len() == 0 || han::han_only(s).len() > MAX_LOOKUP_CHARS {
            Some(
                Refusal { status: 400, error: "text must contain 1 to 204 Han characters"@ },
            )
        } else {
            None
        },
    }
}

/// The characters of a text, no more than a lookup takes.
pub open spec fn shortened(s: Seq<char>) -> Seq<char> {
    if s.len() <= MAX_LOOKUP_CHARS {
        s
    } else {
        s.take(MAX_LOOKUP_CHARS as int)
    }
}

impl Dictionary {
    /// The reply to a search for the given components with the given exact and partial matches. The
    /// variants of the component and its own description are added where it is a single one.
    pub open spec fn answer(
        &self,
        parts: Seq<char>,
        exact: Seq<usize>,
        partial: Seq<usize>,
    ) -> SearchView {
        SearchView {
            parts,
            exact: exact.map_values(|i: usize| self.entry_word(self.list()[i as int])),
            partial: partial.map_values(|i: usize| self.entry_word(self.list()[i as int])),
            variants: self.further_variants(exact, partial).map_values(
                |x: Seq<char>| self.char_word(x),
            ),
            character_variants: if parts.len() == 1 {
                self.first_variants(parts).map_values(|x: Seq<char>| self.char_word(x))
            } else {
                seq![]
            },
            single_word: if parts.len() == 1 {
                Some(self.char_word(parts))
            } else {
                None
            },
        }
    }

    /// The reply to a search for the given components with the given exact and partial matches.
    pub fn describe_matches(&self, parts: String, exact: &[usize], partial: &[usize]) -> (r:
        SearchResponse)
        requires
            self.words_in_range(),
            forall|i: int| 0 <= i < exact@.len() ==> exact@[i] < self.list().len(),
            forall|i: int| 0 <= i < partial@.len() ==> partial@[i] < self.list().len(),
        ensures
            r@ == self.answer(parts@, exact@, partial@),
    {
        let exact_words = self.words_for(exact);
        let partial_words = self.words_for(partial);
        let variants = self.exact_variants(exact, partial);
        let mut character_variants: Vec<Word> = Vec::new();
        let mut single_word: Option<Word> = None;
        assert(words::word_views(character_variants@) =~= seq![]);
        if chars_of(parts.as_str()).len() == 1 {
            character_variants = self.character_variants(parts.as_str());
            single_word = Some(self.word_for_char(parts.as_str()));
        }
        SearchResponse {
            parts,
            exact: exact_words,
            partial: partial_words,
            variants,
            character_variants,
            single_word,
        }
    }
}

/// The reply to a search.
pub fn search(dictionary: &Dictionary, parts: Option<&str>) -> (r: Result<
    SearchResponse,
    ApiError,
>)
    requires
        dictionary.keys_in_range(),
        dictionary.parts_indexed(),
        dictionary.words_in_range(),
    ensures
        match r {
            Ok(reply) => search_refusal(dictionary, given(parts)) is None && exists|
                exact: Seq<usize>,
                partial: Seq<usize>,
            | #[trigger]
                dictionary.search_result(asked(parts->0@), exact, partial) && reply@
                    == dictionary.answer(asked(parts->0@), exact, partial),
            Err(e) => search_refusal(dictionary, given(parts)) == Some(e@),
        },
{
    let raw = match parts {
        Some(raw) => raw,
        None => return Err(api_error(400, "the parts query parameter is required")),
    };
    let trimmed = trim(raw);
    let parts: String = match parse_codepoint(trimmed.as_str()) {
        Some(character) => character,
        None => trimmed,
    };
    assert(parts@ == asked(raw@));
    let count: usize = chars_of(parts.as_str()).len();
    if count == 0 || count > MAX_INPUT_CHARS {
        return Err(api_error(400, "parts must contain 1 to 8 supported Han characters"));
    }
    if !dictionary.supports(parts.as_str()) {
        return Err(api_error(400, "parts contains an unsupported component"));
    }
    let (exact, partial) = dictionary.search(parts.as_str());
    proof {
        laws::lemma_results_in_range(dictionary, parts@, exact@, partial@);
    }
    Ok(dictionary.describe_matches(parts, exact.as_slice(), partial.as_slice()))
}

/// The reply to a lookup of characters: those of the text that are Han.
pub fn lookup_characters(dictionary: &Dictionary, text: Option<&str>) -> (r: Result<
    CharacterResponse,
    ApiError,
>)
    requires
        dictionary.words_in_range(),
    ensures
        match r {
            Ok(reply) => {
                &&& lookup_refusal(given(text)) is None
                &&& reply.text@ == han::han_only(text->0@)
                &&& character::character_views(reply.words@) == dictionary.learned_text(
                    reply.text@,
                )
            },
            Err(e) => lookup_refusal(given(text)) == Some(e@),
        },
{
    let raw = match text {
        Some(raw) => raw,
        None => return Err(api_error(400, "the text query parameter is required")),
    };
    let text = han_characters(raw);
    let count: usize = chars_of(text.as_str()).len();
    if count == 0 || count > MAX_LOOKUP_CHARS {
        return Err(api_error(400, "text must contain 1 to 204 Han characters"));
    }
    let words = dictionary.character_words(text.as_str());
    Ok(CharacterResponse { text, words })
}

/// The reply to a lookup of a grade's characters.
pub fn lookup_grade(dictionary: &Dictionary, grade: &str) -> (r: Result<GradeResponse, ApiError>)
    requires
        dictionary.words_in_range(),
    ensures
        match r {
            Ok(reply) => {
                &&& dictionary.grades@.contains_key(grade@)
                &&& reply.grade@ == grade@
                &&& reply.text@ == han::han_only(dictionary.grades@[grade@]@)
                &&& character::character_views(reply.words@) == dictionary.learned_text(
                    reply.text@,
                )
            },
            Err(e) => !dictionary.grades@.contains_key(grade@) && e@ == (Refusal {
                status: 404,
                error: "unknown grade"@,
            }),
        },
{
    match dictionary.grades.get(grade) {
        Some(source) => {
            let text = han_characters(source.as_str());
            let words = dictionary.character_words(text.as_str());
            Ok(GradeResponse { grade: grade.to_owned(), text, words })
        },
        None => Err(api_error(404, "unknown grade")),
    }
}

/// A character and its pinyin, empty where it has none.
pub fn spell(character: char, pinyin: Option<String>) -> (r: PinyinCharacter)
    ensures
        r@ == (seq![character], reading::blank_or(pinyin.deep_view())),
{
    PinyinCharacter { character: char_text(character), pinyin: or_blank(pinyin) }
}

/// The reply to a lookup of pinyin: the first characters of the text, and whether it has more.
pub fn lookup_pinyin(text: Option<&str>) -> (r: Result<PinyinResponse, ApiError>)
    ensures
        match r {
            Ok(reply) => {
                &&& text is Some
                &&& reply.truncated == (text->0@.len() > MAX_LOOKUP_CHARS)
                &&& reply.text@ == shortened(text->0@)
                &&& pinyin_views(reply.characters@) == reply.text@.map_values(
                    |c: char| (seq![c], reading::blank_or(reading::toned_pinyin(c))),
                )
                &&& reply.characters@.len() == reply.text@.len()
                &&& forall|i: int|
                    0 <= i < reply.characters@.len() ==> {
                        &&& (#[trigger] reply.characters@[i]).character@ == seq![reply.text@[i]]
                        &&& match reading::toned_pinyin(reply.text@[i]) {
                            Some(p) => reply.characters@[i].pinyin@ == p,
                            None => reply.characters@[i].pinyin@.len() == 0,
                        }
                    }
            },
            Err(e) => text is None && e@ == (Refusal {
                status: 400,
                error: "the text query parameter is required"@,
            }),
        },
{
    let raw = match text {
        Some(raw) => raw,
        None => return Err(api_error(400, "the text query parameter is required")),
    };
    let chars = chars_of(raw);
    let truncated: bool = chars.len() > MAX_LOOKUP_CHARS;
    let count: usize = if truncated {
        MAX_LOOKUP_CHARS
    } else {
        chars.len()
    };
    let text = text_of(&chars, 0, count);
    let ghost f = |c: char| (seq![c], reading::blank_or(reading::toned_pinyin(c)));
    assert(text@ =~= shortened(raw@));
    let mut characters: Vec<PinyinCharacter> = Vec::new();
    for i in 0..count
        invariant
            count <= chars@.len(),
            text@ == chars@.subrange(0, count as int),
            f == (|c: char| (seq![c], reading::blank_or(reading::toned_pinyin(c)))),
            pinyin_views(characters@) == text@.take(i as int).map_values(f),
    {
        let character = chars[i];
        let spelled = spell(character, look_up(character));
        let ghost before = pinyin_views(characters@);
        let ghost said = spelled@;
        characters.push(spelled);
        assert(pinyin_views(characters@) =~= before.push(said));
        assert(said == f(text@[i as int]));
        assert(pinyin_views(characters@) =~= text@.take(i + 1).map_values(f));
    }
    proof {
        assert(text@.take(count as int) =~= text@);
        let views = pinyin_views(characters@);
        assert(views.len() == characters@.len());
        assert forall|i: int| 0 <= i < characters@.len() implies {
            &&& (#[trigger] characters@[i]).character@ == seq![text@[i]]
            &&& match reading::toned_pinyin(text@[i]) {
                Some(p) => characters@[i].pinyin@ == p,
                None => characters@[i].pinyin@.len() == 0,
            }
        } by {
            assert(views[i] == characters@[i]@);
            assert(views[i] == f(text@[i]));
        }
    }
    Ok(PinyinResponse { text, truncated, characters })
}

/// A search takes from one to eight components that the dictionary knows. Every other search is
/// refused as a bad request.
pub proof fn law_searches_take_known_components(d: &Dictionary, raw: Option<Seq<char>>)
    ensures
        search_refusal(d, raw) is None <==> raw is Some && 1 <= asked(raw->0).len() <= 8
            && d.supported(asked(raw->0)),
        search_refusal(d, raw) matches Some(r) ==> r.status == 400,
{
}

/// A search by code point is one for its character.
pub proof fn law_code_points_ask_for_their_characters(c: char)
    ensures
        asked(codepoint::codepoint_label(c)) == seq![c],
{
    let label = codepoint::codepoint_label(c);
    codepoint::law_label_is_read_back(c);
    codepoint::lemma_label_ends_in_digit(c);
    assert(text::trimmed(label) == label);
}

/// White space around what a search asks for makes no difference.
pub proof fn law_white_space_around_is_ignored(
    before: Seq<char>,
    raw: Seq<char>,
    after: Seq<char>,
)
    requires
        forall|i: int| 0 <= i < before.len() ==> text::white_space(#[trigger] before[i]),
        forall|i: int| 0 <= i < after.len() ==> text::white_space(#[trigger] after[i]),
    ensures
        asked(before + raw + after) == asked(raw),
{
    text::lemma_trimmed_around(before, raw, after);
}

/// The service answers a search for the components of an entry, in any order, and gives its
/// character among the exact matches, unless there are as many as a search gives. The components
/// are up to eight single characters that do not spell a code point.
pub proof fn law_entries_are_found_by_their_components(
    d: &Dictionary,
    raw: Seq<char>,
    i: usize,
    exact: Seq<usize>,
    partial: Seq<usize>,
)
    requires
        d.wf(),
        i < d.list().len(),
        laws::singles(raw).to_multiset() == d.list()[i as int].parts.to_multiset(),
        raw.len() <= 8,
        codepoint::codepoint_text(raw) is None,
        d.search_result(asked(raw), exact, partial),
    ensures
        search_refusal(d, Some(raw)) is None,
        d.answer(asked(raw), exact, partial).exact.len() == MAX_RESULTS || exists|j: int|
            0 <= j < exact.len() && (#[trigger] d.answer(asked(raw), exact, partial).exact[j]).word
                == d.list()[i as int].word,
{
    let e = d.list()[i as int];
    let s = laws::singles(raw);
    s.to_multiset_ensures();
    e.parts.to_multiset_ensures();
    assert(dictionary::entry_ok(e));
    assert(s.len() == e.parts.len());
    assert forall|k: int| 0 <= k < raw.len() implies !text::white_space(#[trigger] raw[k])
        && e.parts.contains(seq![raw[k]]) by {
        assert(s[k] == seq![raw[k]]);
        assert(s.contains(s[k]));
        assert(s.to_multiset().count(s[k]) > 0);
        assert(e.parts.contains(s[k]));
        let j = choose|j: int| 0 <= j < e.parts.len() && e.parts[j] == s[k];
        assert(text::solid(e.parts[j]));
        assert(e.parts[j][0] == raw[k]);
    }
    assert(text::trimmed(raw) == raw);
    assert(asked(raw) == raw);
    assert forall|k: int| 0 <= k < raw.len() implies search::has_choice(
        e.parts,
        #[trigger] d.choices(raw)[k],
    ) by {
        let c = d.choices(raw)[k];
        laws::lemma_candidates(d, seq![raw[k]], seq![raw[k]]);
        assert(c.contains(seq![raw[k]]));
        let j = choose|j: int| 0 <= j < c.len() && c[j] == seq![raw[k]];
        assert(e.parts.contains(c[j]));
    }
    laws::law_supported_components_are_used(d, raw);
    laws::law_own_components_find_the_entry(d, raw, i);
    if laws::has_word(d.list(), exact, e.word) {
        let j = choose|j: int|
            0 <= j < exact.len() && d.list()[#[trigger] exact[j] as int].word == e.word;
        assert(d.answer(asked(raw), exact, partial).exact[j].word == e.word);
    }
}

/// A reply to a search lists no more matches and no more variants than a search gives, and no
/// character in two of the lists of exact matches, partial matches and their variants.
pub proof fn law_replies_are_bounded(
    d: &Dictionary,
    parts: Seq<char>,
    exact: Seq<usize>,
    partial: Seq<usize>,
)
    requires
        d.wf(),
        d.search_result(parts, exact, partial),
    ensures
        d.answer(parts, exact, partial).exact.len() <= MAX_RESULTS,
        d.answer(parts, exact, partial).partial.len() <= MAX_RESULTS,
        d.answer(parts, exact, partial).variants.len() <= MAX_VARIANTS,
        d.answer(parts, exact, partial).character_variants.len() <= MAX_VARIANTS,
        forall|j: int, k: int|
            0 <= j < exact.len() && 0 <= k < partial.len() ==> (#[trigger] d.answer(
                parts,
                exact,
                partial,
            ).exact[j]).word != (#[trigger] d.answer(parts, exact, partial).partial[k]).word,
        forall|w: Seq<char>| #[trigger]
            d.further_variants(exact, partial).contains(w) ==> !laws::has_word(d.list(), exact, w)
                && !laws::has_word(d.list(), partial, w),
{
    laws::law_exact_matches_fit(d, parts);
    laws::law_partial_matches_fit(d, parts, exact, partial);
    words::law_further_variants_are_no_matches(d, exact, partial);
    let r = d.answer(parts, exact, partial);
    assert forall|j: int, k: int|
        0 <= j < exact.len() && 0 <= k < partial.len() implies (#[trigger] r.exact[j]).word != (
    #[trigger] r.partial[k]).word by {
        let w = d.list()[partial[k] as int].word;
        assert(!laws::has_word(d.list(), exact, w));
        assert(d.list()[exact[j] as int].word != w);
    }
}

} // verus!
