//! The character lists of the school grades.

use vstd::hash_map::StringHashMap;
use vstd::prelude::*;

verus! {

/// The texts of the character lists, one for each half of a school year.
pub struct GradeTexts {
    pub onegrade1st: String,
    pub onegrade2nd: String,
    pub twograde1st: String,
    pub twograde2nd: String,
    pub threegrade1st: String,
    pub threegrade2nd: String,
    pub fourgrade1st: String,
    pub fourgrade2nd: String,
    pub fivegrade1st: String,
    pub fivegrade2nd: String,
    pub sixgrade1st: String,
    pub sixgrade2nd: String,
}

/// The character list of each grade, by the name of the grade.
pub open spec fn grade_texts(texts: GradeTexts) -> Map<Seq<char>, Seq<char>> {
    Map::empty()
        .insert("onegrade1st"@, texts.onegrade1st@)
        .insert("onegrade2nd"@, texts.onegrade2nd@)
        .insert("twograde1st"@, texts.twograde1st@)
        .insert("twograde2nd"@, texts.twograde2nd@)
        .insert("threegrade1st"@, texts.threegrade1st@)
        .insert("threegrade2nd"@, texts.threegrade2nd@)
        .insert("fourgrade1st"@, texts.fourgrade1st@)
        .insert("fourgrade2nd"@, texts.fourgrade2nd@)
        .insert("fivegrade1st"@, texts.fivegrade1st@)
        .insert("fivegrade2nd"@, texts.fivegrade2nd@)
        .insert("sixgrade1st"@, texts.sixgrade1st@)
        .insert("sixgrade2nd"@, texts.sixgrade2nd@)
}

/// The contents of a map of texts.
pub open spec fn text_views(m: Map<Seq<char>, String>) -> Map<Seq<char>, Seq<char>> {
    m.map_values(|s: String| s@)
}

/// Files `text` under `name`.
fn add_grade(map: &mut StringHashMap<String>, name: &str, text: &String)
    ensures
        text_views(final(map)@) == text_views(old(map)@).insert(name@, text@),
{
    map.insert(name.to_owned(), text.clone());
    assert(text_views(map@) =~= text_views(old(map)@).insert(name@, text@));
}

/// The character list of each grade, by the name of the grade.
pub fn grade_map(texts: &GradeTexts) -> (r: StringHashMap<String>)
    ensures
        text_views(r@) == grade_texts(*texts),
{
    let mut map: StringHashMap<String> = StringHashMap::new();
    assert(text_views(map@) =~= Map::empty());
    add_grade(&mut map, "onegrade1st", &texts.onegrade1st);
    add_grade(&mut map, "onegrade2nd", &texts.onegrade2nd);
    add_grade(&mut map, "twograde1st", &texts.twograde1st);
    add_grade(&mut map, "twograde2nd", &texts.twograde2nd);
    add_grade(&mut map, "threegrade1st", &texts.threegrade1st);
    add_grade(&mut map, "threegrade2nd", &texts.threegrade2nd);
    add_grade(&mut map, "fourgrade1st", &texts.fourgrade1st);
    add_grade(&mut map, "fourgrade2nd", &texts.fourgrade2nd);
    add_grade(&mut map, "fivegrade1st", &texts.fivegrade1st);
    add_grade(&mut map, "fivegrade2nd", &texts.fivegrade2nd);
    add_grade(&mut map, "sixgrade1st", &texts.sixgrade1st);
    add_grade(&mut map, "sixgrade2nd", &texts.sixgrade2nd);
    map
}

/// What tells the name of a grade from the others: its length, its first two characters, and the
/// half of the year.
spec fn outline(name: Seq<char>) -> (nat, char, char, char) {
    (name.len(), name[0], name[1], name[name.len() - 3])
}

/// Each grade has its own list, and there are no other grades.
pub proof fn law_grades_keep_their_lists(texts: GradeTexts)
    ensures
        grade_texts(texts).contains_pair("onegrade1st"@, texts.onegrade1st@),
        grade_texts(texts).contains_pair("onegrade2nd"@, texts.onegrade2nd@),
        grade_texts(texts).contains_pair("twograde1st"@, texts.twograde1st@),
        grade_texts(texts).contains_pair("twograde2nd"@, texts.twograde2nd@),
        grade_texts(texts).contains_pair("threegrade1st"@, texts.threegrade1st@),
        grade_texts(texts).contains_pair("threegrade2nd"@, texts.threegrade2nd@),
        grade_texts(texts).contains_pair("fourgrade1st"@, texts.fourgrade1st@),
        grade_texts(texts).contains_pair("fourgrade2nd"@, texts.fourgrade2nd@),
        grade_texts(texts).contains_pair("fivegrade1st"@, texts.fivegrade1st@),
        grade_texts(texts).contains_pair("fivegrade2nd"@, texts.fivegrade2nd@),
        grade_texts(texts).contains_pair("sixgrade1st"@, texts.sixgrade1st@),
        grade_texts(texts).contains_pair("sixgrade2nd"@, texts.sixgrade2nd@),
        grade_texts(texts).dom() == set![
            "onegrade1st"@,
            "onegrade2nd"@,
            "twograde1st"@,
            "twograde2nd"@,
            "threegrade1st"@,
            "threegrade2nd"@,
            "fourgrade1st"@,
            "fourgrade2nd"@,
            "fivegrade1st"@,
            "fivegrade2nd"@,
            "sixgrade1st"@,
            "sixgrade2nd"@,
        ],
        grade_texts(texts).dom().len() == 12,
{
    reveal_strlit("onegrade1st");
    reveal_strlit("onegrade2nd");
    reveal_strlit("twograde1st");
    reveal_strlit("twograde2nd");
    reveal_strlit("threegrade1st");
    reveal_strlit("threegrade2nd");
    reveal_strlit("fourgrade1st");
    reveal_strlit("fourgrade2nd");
    reveal_strlit("fivegrade1st");
    reveal_strlit("fivegrade2nd");
    reveal_strlit("sixgrade1st");
    reveal_strlit("sixgrade2nd");
    assert(outline("onegrade1st"@) == (11nat, 'o', 'n', '1'));
    assert(outline("onegrade2nd"@) == (11nat, 'o', 'n', '2'));
    assert(outline("twograde1st"@) == (11nat, 't', 'w', '1'));
    assert(outline("twograde2nd"@) == (11nat, 't', 'w', '2'));
    assert(outline("threegrade1st"@) == (13nat, 't', 'h', '1'));
    assert(outline("threegrade2nd"@) == (13nat, 't', 'h', '2'));
    assert(outline("fourgrade1st"@) == (12nat, 'f', 'o', '1'));
    assert(outline("fourgrade2nd"@) == (12nat, 'f', 'o', '2'));
    assert(outline("fivegrade1st"@) == (12nat, 'f', 'i', '1'));
    assert(outline("fivegrade2nd"@) == (12nat, 'f', 'i', '2'));
    assert(outline("sixgrade1st"@) == (11nat, 's', 'i', '1'));
    assert(outline("sixgrade2nd"@) == (11nat, 's', 'i', '2'));
}

} // verus!
