//! The dictionary: what the data files list, and the indexes over it.

use vstd::hash_map::StringHashMap;
use vstd::prelude::*;

use crate::grades::{self, grade_map, GradeTexts};
use crate::key::{self, component_key};
use crate::number::{self, parse_number};
use crate::structure::{self, structure_map, Structure};
use crate::text::{self, lines, push_text, split, split_whitespace, trim};
use crate::variants::{self, variant_map};

verus! {

/// A character and the components that it is made of.
#[derive(Clone, Debug)]
pub struct Entry {
    pub word: String,
    pub parts: Vec<String>,
    pub strokes_after_radical: u32,
}

/// What an entry says.
#[verifier::ext_equal]
pub struct EntryView {
    pub word: Seq<char>,
    pub parts: Seq<Seq<char>>,
    pub strokes_after_radical: int,
}

impl View for Entry {
    type V = EntryView;

    open spec fn view(&self) -> EntryView {
        EntryView {
            word: self.word@,
            parts: self.parts.deep_view(),
            strokes_after_radical: self.strokes_after_radical as int,
        }
    }
}

/// The texts of the data files.
pub struct Sources {
    pub radicals: String,
    pub component_variants: String,
    pub jp_variants: String,
    pub char_variants: String,
    pub ids_struct: String,
    pub strokes: String,
    pub words: String,
    pub grades: GradeTexts,
}

/// The dictionary.
pub struct Dictionary {
    pub entries: Vec<Entry>,
    pub exact: StringHashMap<Vec<usize>>,
    pub by_part: StringHashMap<Vec<usize>>,
    pub by_word: StringHashMap<usize>,
    pub component_variants: StringHashMap<Vec<String>>,
    pub char_variants: StringHashMap<Vec<String>>,
    pub structures: StringHashMap<Structure>,
    pub strokes: StringHashMap<u32>,
    pub phrases: Vec<String>,
    pub grades: StringHashMap<String>,
}

/// What the entries say.
pub open spec fn entry_views(entries: Seq<Entry>) -> Seq<EntryView> {
    entries.map_values(|e: Entry| e@)
}

/// What a line of the stroke counts says: a code point, a bar, the character, a bar, and its
/// number of strokes.
pub open spec fn stroke_line(line: Seq<char>) -> Option<(Seq<char>, u32)> {
    let f = text::fields(line, '|');
    if f.len() < 3 {
        None
    } else {
        match number::number(f[2], 10, u32::MAX as int) {
            Some(n) => Some((f[1], n as u32)),
            None => None,
        }
    }
}

/// The stroke counts that the lines list; where two speak of one character, the later one.
pub open spec fn strokes_of(ls: Seq<Seq<char>>) -> Map<Seq<char>, u32>
    decreases ls.len(),
{
    if ls.len() == 0 {
        Map::empty()
    } else {
        match stroke_line(ls.last()) {
            Some((character, n)) => strokes_of(ls.drop_last()).insert(character, n),
            None => strokes_of(ls.drop_last()),
        }
    }
}

/// The number of strokes of the texts of `p`, those without a count left out.
pub open spec fn stroke_sum(p: Seq<Seq<char>>, strokes: Map<Seq<char>, u32>) -> int
    decreases p.len(),
{
    if p.len() == 0 {
        0
    } else {
        stroke_sum(p.drop_last(), strokes) + if strokes.contains_key(p.last()) {
            strokes[p.last()] as int
        } else {
            0
        }
    }
}

/// What a line of the components says: the character, a tab, and its components, of which the
/// first is the radical. Lines without a character or without a component say nothing.
pub open spec fn entry_line(line: Seq<char>, strokes: Map<Seq<char>, u32>) -> Option<EntryView> {
    let f = text::fields(line, '\t');
    let parts = text::words(f[1]);
    if f.len() < 2 || f[0].len() == 0 || parts.len() == 0 {
        None
    } else {
        Some(
            EntryView {
                word: f[0],
                parts,
                strokes_after_radical: stroke_sum(parts.skip(1), strokes),
            },
        )
    }
}

/// The entries that the lines list, in order.
pub open spec fn entries_of(ls: Seq<Seq<char>>, strokes: Map<Seq<char>, u32>) -> Seq<EntryView>
    decreases ls.len(),
{
    if ls.len() == 0 {
        seq![]
    } else {
        match entry_line(ls.last(), strokes) {
            Some(e) => entries_of(ls.drop_last(), strokes).push(e),
            None => entries_of(ls.drop_last(), strokes),
        }
    }
}

/// The phrases that the lines list, without the white space around them and without blank lines.
pub open spec fn phrases_of(ls: Seq<Seq<char>>) -> Seq<Seq<char>> {
    ls.map_values(|line: Seq<char>| text::trimmed(line)).filter(|p: Seq<char>| p.len() > 0)
}

impl Default for Dictionary {
    /// The dictionary without entries.
    fn default() -> (r: Dictionary)
        ensures
            r.wf(),
            r.entries@.len() == 0,
            r.exact@ == Map::<Seq<char>, Vec<usize>>::empty(),
            r.by_part@ == Map::<Seq<char>, Vec<usize>>::empty(),
            r.by_word@ == Map::<Seq<char>, usize>::empty(),
            r.component_variants@ == Map::<Seq<char>, Vec<String>>::empty(),
            r.char_variants@ == Map::<Seq<char>, Vec<String>>::empty(),
            r.structures@ == Map::<Seq<char>, Structure>::empty(),
            r.strokes@ == Map::<Seq<char>, u32>::empty(),
            r.phrases@.len() == 0,
            r.grades@ == Map::<Seq<char>, String>::empty(),
    {
        Dictionary {
            entries: Vec::new(),
            exact: StringHashMap::new(),
            by_part: StringHashMap::new(),
            by_word: StringHashMap::new(),
            component_variants: StringHashMap::new(),
            char_variants: StringHashMap::new(),
            structures: StringHashMap::new(),
            strokes: StringHashMap::new(),
            phrases: Vec::new(),
            grades: StringHashMap::new(),
        }
    }
}

impl Sources {
    /// The stroke counts.
    pub open spec fn stroke_counts(&self) -> Map<Seq<char>, u32> {
        strokes_of(text::text_lines(self.strokes@))
    }

    /// The entries.
    pub open spec fn entries(&self) -> Seq<EntryView> {
        entries_of(text::text_lines(self.radicals@), self.stroke_counts())
    }

    /// No entry has more strokes than can be counted.
    pub open spec fn countable(&self) -> bool {
        forall|i: int|
            0 <= i < self.entries().len() ==> (#[trigger] self.entries()[i]).strokes_after_radical
                <= u32::MAX
    }
}

/// The positions of the entries with the component key `k`, in order.
pub open spec fn with_key(es: Seq<EntryView>, k: Seq<char>) -> Seq<usize>
    decreases es.len(),
{
    if es.len() == 0 {
        seq![]
    } else if key::key_of(es.last().parts) == k {
        with_key(es.drop_last(), k).push((es.len() - 1) as usize)
    } else {
        with_key(es.drop_last(), k)
    }
}

/// The positions of the entries that have the component `k`, in order.
pub open spec fn with_part(es: Seq<EntryView>, k: Seq<char>) -> Seq<usize>
    decreases es.len(),
{
    if es.len() == 0 {
        seq![]
    } else if es.last().parts.contains(k) {
        with_part(es.drop_last(), k).push((es.len() - 1) as usize)
    } else {
        with_part(es.drop_last(), k)
    }
}

/// The position of the first entry of the character `w`.
pub open spec fn first_of(es: Seq<EntryView>, w: Seq<char>) -> Option<usize>
    decreases es.len(),
{
    if es.len() == 0 {
        None
    } else {
        match first_of(es.drop_last(), w) {
            Some(i) => Some(i),
            None => if es.last().word == w {
                Some((es.len() - 1) as usize)
            } else {
                None
            },
        }
    }
}

/// The positions filed under `k`, none where nothing is.
pub open spec fn filed(m: Map<Seq<char>, Vec<usize>>, k: Seq<char>) -> Seq<usize> {
    if m.contains_key(k) {
        m[k]@
    } else {
        seq![]
    }
}

/// The position filed under `k`.
pub open spec fn filed_one(m: Map<Seq<char>, usize>, k: Seq<char>) -> Option<usize> {
    if m.contains_key(k) {
        Some(m[k])
    } else {
        None
    }
}

/// An entry has a character and at least one component, and its components are words.
pub open spec fn entry_ok(e: EntryView) -> bool {
    &&& e.word.len() > 0
    &&& e.parts.len() > 0
    &&& forall|i: int|
        0 <= i < e.parts.len() ==> (#[trigger] e.parts[i]).len() > 0 && text::solid(e.parts[i])
}

impl Dictionary {
    /// What the entries say.
    pub open spec fn list(&self) -> Seq<EntryView> {
        entry_views(self.entries@)
    }

    /// The positions that are filed by component key are those of entries.
    pub open spec fn keys_in_range(&self) -> bool {
        forall|k: Seq<char>, j: int|
            0 <= j < filed(self.exact@, k).len() ==> #[trigger] filed(self.exact@, k)[j]
                < self.list().len()
    }

    /// The positions that are filed by character are those of entries.
    pub open spec fn words_in_range(&self) -> bool {
        forall|w: Seq<char>| #[trigger]
            self.by_word@.contains_key(w) ==> self.by_word@[w] < self.list().len()
    }

    /// The index by component lists exactly the entries with each component.
    pub open spec fn parts_indexed(&self) -> bool {
        forall|k: Seq<char>| #[trigger] filed(self.by_part@, k) == with_part(self.list(), k)
    }

    /// The indexes list exactly the entries: by component key, by component, and by character. No
    /// list in them is empty.
    pub open spec fn indexed(&self) -> bool {
        &&& forall|i: int| 0 <= i < self.list().len() ==> entry_ok(#[trigger] self.list()[i])
        &&& forall|k: Seq<char>| #[trigger] filed(self.exact@, k) == with_key(self.list(), k)
        &&& forall|k: Seq<char>| #[trigger]
            self.exact@.contains_key(k) ==> filed(self.exact@, k).len() > 0
        &&& self.parts_indexed()
        &&& forall|k: Seq<char>| #[trigger]
            self.by_part@.contains_key(k) ==> filed(self.by_part@, k).len() > 0
        &&& forall|w: Seq<char>| #[trigger] filed_one(self.by_word@, w) == first_of(self.list(), w)
    }

    /// The indexes list exactly the entries, and the variants are words listed once.
    pub open spec fn wf(&self) -> bool {
        &&& self.indexed()
        &&& self.keys_in_range()
        &&& self.words_in_range()
        &&& variants::tidy(variants::lists(self.component_variants@))
        &&& variants::tidy(variants::lists(self.char_variants@))
    }

    /// The dictionary holds what the data files list.
    pub open spec fn holds(&self, sources: &Sources) -> bool {
        &&& self.strokes@ == sources.stroke_counts()
        &&& self.list() == sources.entries()
        &&& variants::lists(self.component_variants@) == variants::variants_of(
            seq![sources.jp_variants@, sources.component_variants@],
        )
        &&& variants::lists(self.char_variants@) == variants::variants_of(
            seq![sources.char_variants@],
        )
        &&& structure::structure_views(self.structures@) == structure::structures_of(
            text::text_lines(sources.ids_struct@),
        )
        &&& self.phrases.deep_view() == phrases_of(text::text_lines(sources.words@))
        &&& grades::text_views(self.grades@) == grades::grade_texts(sources.grades)
    }
}

/// The first entry of a character is an entry of it, and none before it is.
pub proof fn lemma_first_of(es: Seq<EntryView>, w: Seq<char>)
    requires
        es.len() <= usize::MAX,
    ensures
        match first_of(es, w) {
            Some(i) => i < es.len() && es[i as int].word == w && forall|j: int|
                0 <= j < i ==> (#[trigger] es[j]).word != w,
            None => forall|j: int| 0 <= j < es.len() ==> (#[trigger] es[j]).word != w,
        },
    decreases es.len(),
{
    if es.len() > 0 {
        lemma_first_of(es.drop_last(), w);
        assert forall|j: int| 0 <= j < es.len() - 1 implies es[j] == es.drop_last()[j] by {}
    }
}

/// The positions filed under a key are those of the entries with that key.
pub proof fn lemma_with_key(es: Seq<EntryView>, k: Seq<char>, i: usize)
    requires
        es.len() <= usize::MAX,
    ensures
        with_key(es, k).contains(i) <==> i < es.len() && key::key_of(
            es[i as int].parts,
        ) == k,
    decreases es.len(),
{
    if es.len() > 0 {
        let rest = es.drop_last();
        let last = (es.len() - 1) as usize;
        lemma_with_key(rest, k, i);
        if key::key_of(es.last().parts) == k {
            vstd::seq_lib::lemma_seq_contains_after_push(with_key(rest, k), last, i);
        }
    }
}

/// The positions filed under a component are those of the entries with that component.
pub proof fn lemma_with_part(es: Seq<EntryView>, k: Seq<char>, i: usize)
    requires
        es.len() <= usize::MAX,
    ensures
        with_part(es, k).contains(i) <==> i < es.len() && es[i as int].parts.contains(
            k,
        ),
    decreases es.len(),
{
    if es.len() > 0 {
        let rest = es.drop_last();
        let last = (es.len() - 1) as usize;
        lemma_with_part(rest, k, i);
        if es.last().parts.contains(k) {
            vstd::seq_lib::lemma_seq_contains_after_push(with_part(rest, k), last, i);
        }
    }
}

/// Files a further position under `k`.
fn file(map: &mut StringHashMap<Vec<usize>>, k: &str, index: usize)
    ensures
        forall|j: Seq<char>| #[trigger]
            filed(final(map)@, j) == if j == k@ {
                filed(old(map)@, j).push(index)
            } else {
                filed(old(map)@, j)
            },
        forall|j: Seq<char>|
            final(map)@.contains_key(j) <==> old(map)@.contains_key(j) || j == k@,
{
    let mut list: Vec<usize> = match map.get(k) {
        Some(found) => found.clone(),
        None => Vec::new(),
    };
    assert(list@ =~= filed(map@, k@));
    list.push(index);
    map.insert(k.to_owned(), list);
}

proof fn lemma_stroke_sum_grows(p: Seq<Seq<char>>, n: int, strokes: Map<Seq<char>, u32>)
    requires
        0 <= n <= p.len(),
    ensures
        0 <= stroke_sum(p.take(n), strokes) <= stroke_sum(p, strokes),
    decreases p.len(),
{
    if p.len() == 0 {
        assert(p.take(n) =~= p);
    } else if n == p.len() {
        assert(p.take(n) =~= p);
        lemma_stroke_sum_grows(p.drop_last(), n - 1, strokes);
    } else {
        lemma_stroke_sum_grows(p.drop_last(), n, strokes);
        assert(p.drop_last().take(n) =~= p.take(n));
    }
}

/// The number of strokes of the components after the first, where it can be counted.
fn strokes_after_first(parts: &Vec<String>, strokes: &StringHashMap<u32>) -> (r: Option<u32>)
    requires
        parts@.len() > 0,
    ensures
        r is Some <==> stroke_sum(parts.deep_view().skip(1), strokes@) <= u32::MAX,
        r matches Some(n) ==> n == stroke_sum(parts.deep_view().skip(1), strokes@),
{
    let ghost p = parts.deep_view().skip(1);
    let mut sum: u32 = 0;
    for i in 1..parts.len()
        invariant
            p == parts.deep_view().skip(1),
            1 <= i <= parts@.len(),
            sum == stroke_sum(p.take(i - 1), strokes@),
    {
        proof {
            assert(p.take(i as int).drop_last() =~= p.take(i - 1));
            assert(p.take(i as int).last() == parts@[i as int]@);
            lemma_stroke_sum_grows(p, i as int, strokes@);
        }
        match strokes.get(parts[i].as_str()) {
            Some(n) => {
                if u32::MAX - sum < *n {
                    return None;
                }
                sum = sum + *n;
            },
            None => {},
        }
    }
    assert(p.take(p.len() as int) =~= p);
    Some(sum)
}

/// The stroke counts that `source` lists, one in a line.
fn stroke_map(source: &str) -> (r: StringHashMap<u32>)
    ensures
        r@ == strokes_of(text::text_lines(source@)),
{
    let mut map: StringHashMap<u32> = StringHashMap::new();
    let source_lines = lines(source);
    let ghost ls = source_lines.deep_view();
    for i in 0..source_lines.len()
        invariant
            ls == source_lines.deep_view(),
            map@ == strokes_of(ls.take(i as int)),
    {
        proof {
            assert(ls.take(i + 1).drop_last() =~= ls.take(i as int));
            assert(ls.take(i + 1).last() == source_lines@[i as int]@);
        }
        let line_fields = split(source_lines[i].as_str(), '|');
        if line_fields.len() >= 3 {
            assert(line_fields.deep_view()[1] == line_fields@[1]@);
            assert(line_fields.deep_view()[2] == line_fields@[2]@);
            match parse_number(line_fields[2].as_str(), 10, u32::MAX) {
                Some(n) => {
                    map.insert(line_fields[1].clone(), n);
                },
                None => {},
            }
        }
    }
    assert(ls.take(ls.len() as int) =~= ls);
    map
}

/// The phrases that `source` lists, one in a line.
fn phrase_list(source: &str) -> (r: Vec<String>)
    ensures
        r.deep_view() == phrases_of(text::text_lines(source@)),
{
    let mut out: Vec<String> = Vec::new();
    let source_lines = lines(source);
    let ghost ls = source_lines.deep_view();
    let ghost f = |line: Seq<char>| text::trimmed(line);
    let ghost p = |s: Seq<char>| s.len() > 0;
    proof {
        reveal(Seq::filter);
        assert(out.deep_view() =~= phrases_of(ls.take(0)));
    }
    for i in 0..source_lines.len()
        invariant
            ls == source_lines.deep_view(),
            f == (|line: Seq<char>| text::trimmed(line)),
            p == (|s: Seq<char>| s.len() > 0),
            out.deep_view() == phrases_of(ls.take(i as int)),
    {
        let phrase = trim(source_lines[i].as_str());
        proof {
            let done = ls.take(i as int).map_values(f);
            assert(ls.take(i + 1).map_values(f) =~= done.push(phrase@));
            done.lemma_filter_push(phrase@, p);
        }
        if !phrase.as_str().is_empty() {
            push_text(&mut out, phrase);
        }
    }
    assert(ls.take(ls.len() as int) =~= ls);
    out
}

/// The entries that the first lines list come first in the list of all.
proof fn lemma_entries_prefix(ls: Seq<Seq<char>>, n: int, strokes: Map<Seq<char>, u32>)
    requires
        0 <= n <= ls.len(),
    ensures
        entries_of(ls.take(n), strokes).is_prefix_of(entries_of(ls, strokes)),
    decreases ls.len(),
{
    if n == ls.len() {
        assert(ls.take(n) =~= ls);
    } else {
        lemma_entries_prefix(ls.drop_last(), n, strokes);
        assert(ls.drop_last().take(n) =~= ls.take(n));
    }
}

impl Dictionary {
    /// Adds an entry and files its position.
    fn add_entry(&mut self, entry: Entry)
        requires
            old(self).indexed(),
            entry_ok(entry@),
        ensures
            final(self).indexed(),
            final(self).list() == old(self).list().push(entry@),
            final(self).strokes == old(self).strokes,
            final(self).component_variants == old(self).component_variants,
            final(self).char_variants == old(self).char_variants,
            final(self).structures == old(self).structures,
            final(self).phrases == old(self).phrases,
            final(self).grades == old(self).grades,
    {
        let index: usize = self.entries.len();
        let ghost es = self.list();
        let ghost new = es.push(entry@);
        assert(new.drop_last() =~= es);
        let entry_key = component_key(&entry.parts);
        file(&mut self.exact, entry_key.as_str(), index);
        let ghost p = entry.parts.deep_view();
        for position in 0..entry.parts.len()
            invariant
                p == entry.parts.deep_view(),
                forall|k: Seq<char>| #[trigger]
                    filed(self.by_part@, k) == if p.take(position as int).contains(k) {
                        filed(old(self).by_part@, k).push(index)
                    } else {
                        filed(old(self).by_part@, k)
                    },
                forall|k: Seq<char>| #[trigger]
                    self.by_part@.contains_key(k) ==> filed(self.by_part@, k).len() > 0,
                forall|k: Seq<char>| #[trigger]
                    self.exact@.contains_key(k) ==> filed(self.exact@, k).len() > 0,
                forall|k: Seq<char>| #[trigger]
                    filed(self.exact@, k) == if k == entry_key@ {
                        filed(old(self).exact@, k).push(index)
                    } else {
                        filed(old(self).exact@, k)
                    },
                self.entries == old(self).entries,
                self.by_word == old(self).by_word,
                self.strokes == old(self).strokes,
                self.component_variants == old(self).component_variants,
                self.char_variants == old(self).char_variants,
                self.structures == old(self).structures,
                self.phrases == old(self).phrases,
                self.grades == old(self).grades,
        {
            let mut first: bool = true;
            for j in 0..position
                invariant
                    p == entry.parts.deep_view(),
                    position < entry.parts@.len(),
                    first == !p.take(j as int).contains(p[position as int]),
            {
                assert(p.take(j + 1) =~= p.take(j as int).push(p[j as int]));
                proof {
                    vstd::seq_lib::lemma_seq_contains_after_push(
                        p.take(j as int),
                        p[j as int],
                        p[position as int],
                    );
                }
                if entry.parts[j] == entry.parts[position] {
                    first = false;
                    assert(p.take(j + 1)[j as int] == p[position as int]);
                }
            }
            proof {
                let before = p.take(position as int);
                let x = p[position as int];
                assert(p.take(position + 1) =~= before.push(x));
                assert forall|k: Seq<char>|
                    before.push(x).contains(k) <==> before.contains(k) || k == x by {
                    vstd::seq_lib::lemma_seq_contains_after_push(before, x, k);
                    assert(before.push(x)[position as int] == x);
                }
            }
            if first {
                file(&mut self.by_part, entry.parts[position].as_str(), index);
            }
        }
        assert(p.take(p.len() as int) =~= p);
        if !self.by_word.contains_key(entry.word.as_str()) {
            self.by_word.insert(entry.word.clone(), index);
        }
        self.entries.push(entry);
        proof {
            assert(self.list() =~= new);
            assert forall|w: Seq<char>| #[trigger]
                filed_one(self.by_word@, w) == first_of(self.list(), w) by {
                assert(filed_one(old(self).by_word@, w) == first_of(es, w));
                assert(filed_one(old(self).by_word@, entry.word@) == first_of(es, entry.word@));
            }
            assert forall|k: Seq<char>| #[trigger]
                filed(self.by_part@, k) == with_part(self.list(), k) by {
                assert(filed(old(self).by_part@, k) == with_part(es, k));
            }
            assert forall|k: Seq<char>| #[trigger]
                filed(self.exact@, k) == with_key(self.list(), k) by {
                assert(filed(old(self).exact@, k) == with_key(es, k));
            }
        }
    }

    /// What is filed are positions of entries.
    proof fn lemma_in_range(&self)
        requires
            self.indexed(),
        ensures
            self.keys_in_range(),
            self.words_in_range(),
    {
        let es = self.list();
        assert(es.len() == self.entries.len());
        assert forall|k: Seq<char>, j: int| 0 <= j < filed(self.exact@, k).len() implies {
            #[trigger] filed(self.exact@, k)[j] < es.len()
        } by {
            lemma_with_key(es, k, filed(self.exact@, k)[j]);
            assert(with_key(es, k).contains(filed(self.exact@, k)[j]));
        }
        assert forall|w: Seq<char>| #[trigger] self.by_word@.contains_key(w) implies {
            self.by_word@[w] < es.len()
        } by {
            assert(filed_one(self.by_word@, w) == first_of(es, w));
            lemma_first_of(es, w);
        }
    }

    /// The dictionary of the data files, or `None` where an entry has more strokes than can be
    /// counted.
    pub fn try_load(sources: &Sources) -> (r: Option<Dictionary>)
        ensures
            r is Some <==> sources.countable(),
            r matches Some(d) ==> d.wf() && d.holds(sources),
    {
        let strokes = stroke_map(sources.strokes.as_str());
        let ghost counts = strokes@;
        let jp = [sources.jp_variants.as_str(), sources.component_variants.as_str()];
        let component_variants = variant_map(&jp);
        let chars = [sources.char_variants.as_str()];
        let char_variants = variant_map(&chars);
        proof {
            assert(jp.deep_view() =~= seq![sources.jp_variants@, sources.component_variants@]);
            assert(chars.deep_view() =~= seq![sources.char_variants@]);
            variants::law_variants_are_those_listed(jp.deep_view(), seq![], seq![]);
            variants::law_variants_are_those_listed(chars.deep_view(), seq![], seq![]);
        }
        let mut dictionary = Dictionary {
            entries: Vec::new(),
            exact: StringHashMap::new(),
            by_part: StringHashMap::new(),
            by_word: StringHashMap::new(),
            component_variants,
            char_variants,
            structures: structure_map(sources.ids_struct.as_str()),
            strokes,
            phrases: phrase_list(sources.words.as_str()),
            grades: grade_map(&sources.grades),
        };
        let ghost start = dictionary;
        let source_lines = lines(sources.radicals.as_str());
        let ghost ls = source_lines.deep_view();
        assert(dictionary.list() =~= seq![]);
        for i in 0..source_lines.len()
            invariant
                ls == source_lines.deep_view(),
                ls == text::text_lines(sources.radicals@),
                counts == sources.stroke_counts(),
                counts == dictionary.strokes@,
                dictionary.indexed(),
                dictionary.list() == entries_of(ls.take(i as int), counts),
                forall|j: int|
                    0 <= j < dictionary.list().len() ==> (#[trigger] dictionary.list()[
                        j
                    ]).strokes_after_radical <= u32::MAX,
                dictionary.strokes == start.strokes,
                dictionary.component_variants == start.component_variants,
                dictionary.char_variants == start.char_variants,
                dictionary.structures == start.structures,
                dictionary.phrases == start.phrases,
                dictionary.grades == start.grades,
        {
            proof {
                assert(ls.take(i + 1).drop_last() =~= ls.take(i as int));
                assert(ls.take(i + 1).last() == source_lines@[i as int]@);
            }
            let line_fields = split(source_lines[i].as_str(), '\t');
            let ghost f = line_fields.deep_view();
            if line_fields.len() >= 2 && !line_fields[0].as_str().is_empty() {
                assert(f[0] == line_fields@[0]@ && f[1] == line_fields@[1]@);
                let parts = split_whitespace(line_fields[1].as_str());
                if parts.len() > 0 {
                    proof {
                        text::lemma_words_solid(f[1]);
                        lemma_entries_prefix(ls, i + 1, counts);
                    }
                    match strokes_after_first(&parts, &dictionary.strokes) {
                        Some(strokes_after_radical) => {
                            let entry = Entry {
                                word: line_fields[0].clone(),
                                parts,
                                strokes_after_radical,
                            };
                            assert(Some(entry@) == entry_line(ls[i as int], counts));
                            dictionary.add_entry(entry);
                        },
                        None => {
                            proof {
                                let bad = entries_of(ls.take(i + 1), counts);
                                let at = bad.len() - 1;
                                assert(bad[at].strokes_after_radical > u32::MAX);
                                assert(sources.entries()[at] == bad[at]);
                            }
                            return None;
                        },
                    }
                }
            }
        }
        proof {
            assert(ls.take(ls.len() as int) =~= ls);
            dictionary.lemma_in_range();
        }
        Some(dictionary)
    }

    /// The dictionary of the data files.
    pub fn load(sources: &Sources) -> (r: Dictionary)
        requires
            sources.countable(),
        ensures
            r.wf(),
            r.holds(sources),
    {
        Dictionary::try_load(sources).unwrap()
    }
}

} // verus!
