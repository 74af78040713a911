//! Han characters.

use vstd::prelude::*;

verus! {

/// `c` lies in one of the Unicode blocks of Han characters.
pub open spec fn han(c: char) -> bool {
    let n = c as int;
    ||| 0x3400 <= n <= 0x4DBF
    ||| 0x4E00 <= n <= 0x9FFF
    ||| 0xF900 <= n <= 0xFAFF
    ||| 0x20000 <= n <= 0x2EBEF
    ||| 0x30000 <= n <= 0x323AF
}

/// The Han characters of `s`, in order.
pub open spec fn han_only(s: Seq<char>) -> Seq<char> {
    s.filter(|c: char| han(c))
}

/// Whether `character` is a Han character.
pub fn is_han(character: char) -> (r: bool)
    ensures
        r == han(character),
{
    let n: u32 = character as u32;
    (0x3400 <= n && n <= 0x4DBF) || (0x4E00 <= n && n <= 0x9FFF) || (0xF900 <= n && n <= 0xFAFF)
        || (0x20000 <= n && n <= 0x2EBEF) || (0x30000 <= n && n <= 0x323AF)
}

/// The Han characters of `text`, in order.
pub fn han_characters(text: &str) -> (r: String)
    ensures
        r@ == han_only(text@),
{
    let mut out = String::new();
    assert(text@.take(0).filter(|c: char| han(c)) =~= Seq::<char>::empty());
    for x in it: text.chars()
        invariant
            it.seq() == text@,
            out@ == han_only(text@.take(it.index())),
    {
        proof {
            let p = |c: char| han(c);
            let t = text@.take(it.index());
            t.lemma_filter_push(x, p);
            assert(t.push(x) =~= text@.take(it.index() + 1));
        }
        if is_han(x) {
            out.push(x);
        }
    }
    assert(text@.take(text@.len() as int) =~= text@);
    out
}

/// Only Han characters are kept, and keeping them a second time changes nothing.
pub proof fn law_han_only_keeps_han(s: Seq<char>)
    ensures
        forall|i: int| 0 <= i < han_only(s).len() ==> han(#[trigger] han_only(s)[i]),
        han_only(han_only(s)) == han_only(s),
    decreases s.len(),
{
    let p = |c: char| han(c);
    reveal(Seq::filter);
    if s.len() > 0 {
        let t = s.drop_last();
        law_han_only_keeps_han(t);
        if han(s.last()) {
            han_only(t).lemma_filter_push(s.last(), p);
            assert(han_only(s) =~= han_only(t).push(s.last()));
        }
    }
}

} // verus!
