//! How characters are composed.

use vstd::hash_map::StringHashMap;
use vstd::prelude::*;

use crate::text::{self, join, lines, push_text, split, split_whitespace};

verus! {

/// The composition of a character: the name of its layout and its parts.
#[derive(Clone, Debug)]
pub struct Structure {
    pub name: String,
    pub parts: Vec<String>,
}

/// What a composition says.
#[verifier::ext_equal]
pub struct StructureView {
    pub name: Seq<char>,
    pub parts: Seq<Seq<char>>,
}

impl View for Structure {
    type V = StructureView;

    open spec fn view(&self) -> StructureView {
        StructureView { name: self.name@, parts: self.parts.deep_view() }
    }
}

/// The name of the layout that an ideographic description character stands for, empty for any
/// other text.
pub open spec fn layout_name(operator: Seq<char>) -> Seq<char> {
    if operator.len() != 1 {
        seq![]
    } else if operator[0] == '⿰' {
        "左右结构"@
    } else if operator[0] == '⿱' {
        "上下结构"@
    } else if operator[0] == '⿲' {
        "左中右结构"@
    } else if operator[0] == '⿳' {
        "上中下结构"@
    } else if operator[0] == '⿴' {
        "全包围结构"@
    } else if operator[0] == '⿵' || operator[0] == '⿶' || operator[0] == '⿷' || operator[0] == '⿸'
        || operator[0] == '⿹' || operator[0] == '⿺' {
        "半包围结构"@
    } else if operator[0] == '⿻' {
        "镶嵌结构"@
    } else {
        seq![]
    }
}

/// What a line says: the character, a tab, its layout, a tab, and its parts.
pub open spec fn line_structure(line: Seq<char>) -> Option<(Seq<char>, StructureView)> {
    let f = text::fields(line, '\t');
    if f.len() < 3 {
        None
    } else {
        Some(
            (
                f[0],
                StructureView {
                    name: layout_name(f[1]),
                    parts: text::words(text::joined(f.skip(2), '\t')),
                },
            ),
        )
    }
}

/// What the lines say; where two speak of one character, the later one.
pub open spec fn structures_of(ls: Seq<Seq<char>>) -> Map<Seq<char>, StructureView>
    decreases ls.len(),
{
    if ls.len() == 0 {
        Map::empty()
    } else {
        match line_structure(ls.last()) {
            Some((character, structure)) => structures_of(ls.drop_last()).insert(
                character,
                structure,
            ),
            None => structures_of(ls.drop_last()),
        }
    }
}

/// The contents of a map of compositions.
pub open spec fn structure_views(m: Map<Seq<char>, Structure>) -> Map<Seq<char>, StructureView> {
    m.map_values(|s: Structure| s@)
}

/// The name of the layout that an ideographic description character stands for.
pub fn name_of_layout(operator: &str) -> (r: String)
    ensures
        r@ == layout_name(operator@),
{
    let chars = text::chars_of(operator);
    if chars.len() != 1 {
        return String::new();
    }
    let c = chars[0];
    if c == '⿰' {
        "左右结构".to_owned()
    } else if c == '⿱' {
        "上下结构".to_owned()
    } else if c == '⿲' {
        "左中右结构".to_owned()
    } else if c == '⿳' {
        "上中下结构".to_owned()
    } else if c == '⿴' {
        "全包围结构".to_owned()
    } else if c == '⿵' || c == '⿶' || c == '⿷' || c == '⿸' || c == '⿹' || c == '⿺' {
        "半包围结构".to_owned()
    } else if c == '⿻' {
        "镶嵌结构".to_owned()
    } else {
        String::new()
    }
}

/// The compositions that `source` lists, one in a line.
pub fn structure_map(source: &str) -> (r: StringHashMap<Structure>)
    ensures
        structure_views(r@) == structures_of(text::text_lines(source@)),
{
    let mut map: StringHashMap<Structure> = StringHashMap::new();
    let source_lines = lines(source);
    let ghost ls = source_lines.deep_view();
    assert(structure_views(map@) =~= Map::empty());
    for i in 0..source_lines.len()
        invariant
            ls == source_lines.deep_view(),
            structure_views(map@) == structures_of(ls.take(i as int)),
    {
        let ghost before = map@;
        proof {
            assert(ls.take(i + 1).drop_last() =~= ls.take(i as int));
            assert(ls.take(i + 1).last() == source_lines@[i as int]@);
        }
        let line_fields = split(source_lines[i].as_str(), '\t');
        let ghost f = line_fields.deep_view();
        if line_fields.len() >= 3 {
            let mut tail: Vec<String> = Vec::new();
            assert(tail.deep_view() =~= f.subrange(2, 2));
            for j in 2..line_fields.len()
                invariant
                    f == line_fields.deep_view(),
                    2 <= j <= f.len(),
                    tail.deep_view() == f.subrange(2, j as int),
            {
                push_text(&mut tail, line_fields[j].clone());
                assert(tail.deep_view() =~= f.subrange(2, j + 1));
            }
            assert(f.subrange(2, f.len() as int) =~= f.skip(2));
            let structure = Structure {
                name: name_of_layout(line_fields[1].as_str()),
                parts: split_whitespace(join(&tail, '\t').as_str()),
            };
            let ghost s = structure@;
            map.insert(line_fields[0].clone(), structure);
            assert(structure_views(map@) =~= structure_views(before).insert(f[0], s));
        }
    }
    assert(ls.take(ls.len() as int) =~= ls);
    map
}

} // verus!
