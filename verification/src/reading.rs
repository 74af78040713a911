//! The pinyin of characters.

use pinyin::ToPinyin;
use vstd::prelude::*;

verus! {

/// The pinyin of `c` with its tone mark, as the `pinyin` crate gives it.
pub uninterp spec fn toned_pinyin(c: char) -> Option<Seq<char>>;

/// A pinyin, or the empty text where there is none.
pub open spec fn blank_or(pinyin: Option<Seq<char>>) -> Seq<char> {
    match pinyin {
        Some(p) => p,
        None => seq![],
    }
}

/// The pinyin of the first character of `s`, empty where there is none.
pub open spec fn first_pinyin(s: Seq<char>) -> Seq<char> {
    if s.len() > 0 {
        blank_or(toned_pinyin(s[0]))
    } else {
        seq![]
    }
}

/// `ToPinyin::to_pinyin` on a character looks it up in the table of the `pinyin` crate, and
/// `Pinyin::with_tone` gives the entry's text with tone marks. The result depends on the character
/// alone, and is given the name `toned_pinyin`; nothing is said of what the table holds.
#[verifier::external_body]
pub(crate) fn look_up(c: char) -> (r: Option<String>)
    ensures
        r.deep_view() == toned_pinyin(c),
{
    match c.to_pinyin() {
        Some(found) => Some(found.with_tone().to_owned()),
        None => None,
    }
}

/// A pinyin, or the empty text where there is none.
pub fn or_blank(pinyin: Option<String>) -> (r: String)
    ensures
        r@ == blank_or(pinyin.deep_view()),
{
    match pinyin {
        Some(p) => p,
        None => String::new(),
    }
}

/// The pinyin of `c`, empty where it has none.
pub fn pinyin_of(c: char) -> (r: String)
    ensures
        r@ == blank_or(toned_pinyin(c)),
{
    or_blank(look_up(c))
}

/// The pinyin of the first character of `s`, empty where there is none.
pub fn pinyin_of_first(s: &str) -> (r: String)
    ensures
        r@ == first_pinyin(s@),
{
    let chars = crate::text::chars_of(s);
    if chars.len() > 0 {
        pinyin_of(chars[0])
    } else {
        String::new()
    }
}

} // verus!
