//! Unicode code points in text, as in `U+263F6`.

use vstd::prelude::*;

use crate::number::{self, parse_number, to_hex, to_padded_hex};
use crate::text::{char_text, chars_of, text_of};

verus! {

/// `n` is the number of a Unicode scalar value.
pub open spec fn scalar_value(n: int) -> bool {
    0 <= n <= 0xD7FF || 0xE000 <= n <= 0x10FFFF
}

/// `char::from_u32` gives the character with the number `i`, and `None` where `i` is not the
/// number of a Unicode scalar value.
pub assume_specification[ char::from_u32 ](i: u32) -> (r: Option<char>)
    ensures
        r == if scalar_value(i as int) {
            Some(i as char)
        } else {
            None
        },
;

/// The text that a code point in the form `U+263F6` or `u+263f6` stands for: four to six
/// characters that write the number of a character.
pub open spec fn codepoint_text(input: Seq<char>) -> Option<Seq<char>> {
    let digits = input.skip(2);
    if input.len() < 2 || (input[0] != 'U' && input[0] != 'u') || input[1] != '+' {
        None
    } else if digits.len() < 4 || digits.len() > 6 {
        None
    } else {
        match number::number(digits, 16, u32::MAX as int) {
            Some(n) => if scalar_value(n) {
                Some(seq![n as char])
            } else {
                None
            },
            None => None,
        }
    }
}

/// The code point of `c` in the form `U+263F6`.
pub open spec fn codepoint_label(c: char) -> Seq<char> {
    seq!['U', '+'] + number::padded(number::hex(c as nat, true))
}

/// The address of the drawing of `c`, which only characters beyond the basic plane need.
pub open spec fn glyph_address(c: char) -> Option<Seq<char>> {
    if c as int > 0xFFFF {
        Some("https://glyphwiki.org/glyph/u"@ + number::hex(c as nat, false) + ".svg"@)
    } else {
        None
    }
}

/// The text that a code point stands for.
pub fn parse_codepoint(input: &str) -> (r: Option<String>)
    ensures
        r.deep_view() == codepoint_text(input@),
{
    let chars = chars_of(input);
    let n: usize = chars.len();
    if n < 2 || (chars[0] != 'U' && chars[0] != 'u') || chars[1] != '+' {
        return None;
    }
    let digits = text_of(&chars, 2, n);
    assert(digits@ =~= input@.skip(2));
    if n - 2 < 4 || n - 2 > 6 {
        return None;
    }
    match parse_number(digits.as_str(), 16, u32::MAX) {
        Some(value) => match char::from_u32(value) {
            Some(c) => Some(char_text(c)),
            None => None,
        },
        None => None,
    }
}

/// The code point of `c` in the form `U+263F6`.
pub fn label_of(c: char) -> (r: String)
    ensures
        r@ == codepoint_label(c),
{
    let mut out = String::new();
    out.push('U');
    out.push('+');
    assert(out@ =~= seq!['U', '+']);
    let digits = to_padded_hex(c as u32);
    out.append(digits.as_str());
    out
}

/// The address of the drawing of `c`, where it needs one.
pub fn glyph_of(c: char) -> (r: Option<String>)
    ensures
        r.deep_view() == glyph_address(c),
{
    let n: u32 = c as u32;
    if n <= 0xFFFF {
        return None;
    }
    let mut out = "https://glyphwiki.org/glyph/u".to_owned();
    let digits = to_hex(n, false);
    out.append(digits.as_str());
    out.append(".svg");
    Some(out)
}

/// The code point that a character is labelled with is read back as that character.
pub proof fn law_label_is_read_back(c: char)
    ensures
        codepoint_text(codepoint_label(c)) == Some(seq![c]),
{
    let label = codepoint_label(c);
    let digits = number::padded(number::hex(c as nat, true));
    number::lemma_padded_hex(c as nat);
    assert(label.skip(2) =~= digits);
}

/// The code point that a character is labelled with ends in a digit.
pub proof fn lemma_label_ends_in_digit(c: char)
    ensures
        codepoint_label(c).len() > 2,
        exists|d: int|
            0 <= d < 16 && codepoint_label(c).last() == #[trigger] number::hex_digit(d, true),
{
    let h = number::hex(c as nat, true);
    assert(h.last() == number::hex_digit((c as int) % 16, true));
    assert(codepoint_label(c).last() == h.last());
}

/// A code point may be written with a small or a capital `u`, in small or capital digits, and with
/// zeros before them, as long as there are four to six digits.
pub proof fn law_padded_code_points_are_read(
    c: char,
    capital: bool,
    upper: bool,
    zeros: Seq<char>,
)
    requires
        forall|i: int| 0 <= i < zeros.len() ==> zeros[i] == '0',
        4 <= zeros.len() + number::hex(c as nat, upper).len() <= 6,
    ensures
        ({
            let u = if capital {
                'U'
            } else {
                'u'
            };
            codepoint_text(seq![u, '+'] + zeros + number::hex(c as nat, upper)) == Some(seq![c])
        }),
{
    let digits = zeros + number::hex(c as nat, upper);
    let u = if capital {
        'U'
    } else {
        'u'
    };
    let input = seq![u, '+'] + zeros + number::hex(c as nat, upper);
    number::lemma_hex_value(c as nat, upper);
    number::lemma_zeros_value(zeros, number::hex(c as nat, upper));
    assert(input.skip(2) =~= digits);
    assert(digits[0] != '+');
}

} // verus!
