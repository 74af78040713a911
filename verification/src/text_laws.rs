//! What holds of texts, numbers, code points and keys.

use vstd::prelude::*;

use crate::codepoint;
use crate::distinct;
use crate::han;
use crate::key;
use crate::number;
use crate::text;

verus! {

/// Joining nothing gives nothing, joining one text gives it back, and two lists joined one after
/// the other have the separator between them.
pub proof fn law_joining(p: Seq<Seq<char>>, q: Seq<Seq<char>>, x: Seq<char>, c: char)
    requires
        p.len() > 0,
        q.len() > 0,
    ensures
        text::joined(seq![], c) == Seq::<char>::empty(),
        text::joined(seq![x], c) == x,
        text::joined(p + q, c) == text::joined(p, c) + seq![c] + text::joined(q, c),
    decreases p.len(),
{
    if p.len() == 1 {
        assert((p + q).skip(1) =~= q);
        assert(text::joined(p + q, c) =~= text::joined(p, c) + seq![c] + text::joined(q, c));
    } else {
        law_joining(p.skip(1), q, x, c);
        assert((p + q).skip(1) =~= p.skip(1) + q);
        assert(text::joined(p + q, c) =~= text::joined(p, c) + seq![c] + text::joined(q, c));
    }
}

/// The fields of a text hold no separator, and joined by it they are the text again.
pub proof fn law_fields_make_the_text(s: Seq<char>, c: char)
    ensures
        text::fields(s, c).len() > 0,
        text::joined(text::fields(s, c), c) == s,
        forall|i: int|
            0 <= i < text::fields(s, c).len() ==> !(#[trigger] text::fields(s, c)[i]).contains(c),
    decreases s.len(),
{
    if s.contains(c) {
        let at = s.index_of_first(c)->0;
        s.index_of_first_ensures(c);
        let a = s.take(at);
        let b = s.skip(at + 1);
        assert(s =~= a + seq![c] + b);
        law_fields_make_the_text(a, c);
        law_fields_make_the_text(b, c);
        text::lemma_fields_concat(a, b, c);
        law_joining(text::fields(a, c), text::fields(b, c), a, c);
        assert forall|i: int| 0 <= i < text::fields(s, c).len() implies !(#[trigger] text::fields(
            s,
            c,
        )[i]).contains(c) by {
            let n = text::fields(a, c).len();
            if i < n {
                assert(text::fields(s, c)[i] == text::fields(a, c)[i]);
            } else {
                assert(text::fields(s, c)[i] == text::fields(b, c)[i - n]);
            }
        }
    } else {
        text::lemma_fields_single(s, c);
    }
}

/// A line ends at a line feed, which is not part of it, nor is one carriage return before it. What
/// follows the last line feed is a line unless it is empty.
pub proof fn law_lines_end_at_line_feeds(line: Seq<char>, rest: Seq<char>)
    requires
        !line.contains('\n'),
    ensures
        text::text_lines(seq![]) == Seq::<Seq<char>>::empty(),
        line.len() > 0 ==> text::text_lines(line) == seq![line],
        line.len() == 0 || line.last() != '\r' ==> text::text_lines(line + seq!['\n'] + rest)
            == seq![line] + text::text_lines(rest),
        text::text_lines(line + seq!['\r', '\n'] + rest) == seq![line] + text::text_lines(rest),
{
    text::lemma_lines_step(line, rest);
    let longer = line.push('\r');
    assert(!longer.contains('\n')) by {
        if longer.contains('\n') {
            let i = choose|i: int| 0 <= i < longer.len() && longer[i] == '\n';
            assert(line[i] == '\n');
        }
    }
    text::lemma_lines_step(longer, rest);
    assert(longer + seq!['\n'] + rest =~= line + seq!['\r', '\n'] + rest);
    assert(longer.drop_last() =~= line);
}

/// Words are what stands between white space: a text without any is its only word, and the words
/// on both sides of a white space are those of the sides.
pub proof fn law_words_stand_between_white_space(a: Seq<char>, x: char, b: Seq<char>)
    requires
        text::white_space(x),
    ensures
        text::words(seq![]) == Seq::<Seq<char>>::empty(),
        a.len() > 0 && (forall|i: int| 0 <= i < a.len() ==> !text::white_space(#[trigger] a[i]))
            ==> text::words(a) == seq![a],
        text::words(a + seq![x] + b) == text::words(a) + text::words(b),
    decreases a.len(), 1int,
{
    let none = Seq::<char>::empty();
    if forall|i: int| 0 <= i < a.len() ==> !text::white_space(#[trigger] a[i]) {
        text::lemma_words_step(a, x, b);
        if a.len() == 0 {
            assert(text::words(a) =~= seq![]);
            assert(text::words(a) + text::words(b) =~= text::words(b));
        }
    } else {
        let at = choose|i: int| 0 <= i < a.len() && text::white_space(#[trigger] a[i]);
        lemma_words_split(a, at, x, b);
    }
}

proof fn lemma_words_split(a: Seq<char>, at: int, x: char, b: Seq<char>)
    requires
        0 <= at < a.len(),
        text::white_space(a[at]),
        text::white_space(x),
    ensures
        text::words(a + seq![x] + b) == text::words(a) + text::words(b),
    decreases a.len(), 0int,
{
    let head = a.take(at);
    let tail = a.skip(at + 1);
    let y = a[at];
    let later = tail + seq![x] + b;
    assert(a =~= head + seq![y] + tail);
    assert(a + seq![x] + b =~= head + seq![y] + later);
    law_words_stand_between_white_space(head, y, tail);
    law_words_stand_between_white_space(head, y, later);
    law_words_stand_between_white_space(tail, x, b);
    assert(text::words(head) + (text::words(tail) + text::words(b)) =~= text::words(head)
        + text::words(tail) + text::words(b));
}

/// Trimming takes white space from both ends, and all of it.
pub proof fn law_trimming_takes_white_space_from_the_ends(s: Seq<char>)
    ensures
        exists|a: Seq<char>, b: Seq<char>|
            {
                &&& s == #[trigger] (a + text::trimmed(s) + b)
                &&& forall|i: int| 0 <= i < a.len() ==> text::white_space(#[trigger] a[i])
                &&& forall|i: int| 0 <= i < b.len() ==> text::white_space(#[trigger] b[i])
            },
        text::trimmed(s).len() > 0 ==> !text::white_space(text::trimmed(s)[0])
            && !text::white_space(text::trimmed(s).last()),
{
    let t = text::trimmed_start(s);
    let r = text::trimmed(s);
    let a = lemma_trimmed_start(s);
    let b = lemma_trimmed_end(t);
    assert(s =~= a + r + b);
    if r.len() > 0 {
        assert(r[0] == t[0]);
    }
}

proof fn lemma_trimmed_start(s: Seq<char>) -> (a: Seq<char>)
    ensures
        s == a + text::trimmed_start(s),
        forall|i: int| 0 <= i < a.len() ==> text::white_space(#[trigger] a[i]),
        text::trimmed_start(s).len() > 0 ==> !text::white_space(text::trimmed_start(s)[0]),
    decreases s.len(),
{
    if s.len() > 0 && text::white_space(s[0]) {
        let rest = lemma_trimmed_start(s.skip(1));
        let a = seq![s[0]] + rest;
        assert(s =~= seq![s[0]] + s.skip(1));
        assert(s =~= a + text::trimmed_start(s));
        a
    } else {
        assert(s =~= Seq::<char>::empty() + text::trimmed_start(s));
        seq![]
    }
}

proof fn lemma_trimmed_end(s: Seq<char>) -> (b: Seq<char>)
    ensures
        s == text::trimmed_end(s) + b,
        forall|i: int| 0 <= i < b.len() ==> text::white_space(#[trigger] b[i]),
        text::trimmed_end(s).len() > 0 ==> !text::white_space(text::trimmed_end(s).last()),
    decreases s.len(),
{
    if s.len() > 0 && text::white_space(s.last()) {
        let rest = lemma_trimmed_end(s.drop_last());
        let b = rest.push(s.last());
        assert(s =~= s.drop_last().push(s.last()));
        assert(s =~= text::trimmed_end(s) + b);
        b
    } else {
        assert(s =~= text::trimmed_end(s) + Seq::<char>::empty());
        seq![]
    }
}

/// A text has a part exactly if it is made of something, that part, and something more.
pub proof fn law_a_part_stands_between_others(s: Seq<char>, part: Seq<char>)
    ensures
        text::occurs_in(s, part) <==> exists|a: Seq<char>, b: Seq<char>|
            s == #[trigger] (a + part + b),
{
    if text::occurs_in(s, part) {
        let at = choose|at: int| text::occurs_at(s, part, at);
        let a = s.take(at);
        let b = s.skip(at + part.len());
        assert(s =~= a + part + b) by {
            assert forall|i: int| 0 <= i < s.len() implies s[i] == (a + part + b)[i] by {
                if at <= i < at + part.len() {
                    assert(s.subrange(at, at + part.len())[i - at] == part[i - at]);
                }
            }
        }
    }
    if exists|a: Seq<char>, b: Seq<char>| s == #[trigger] (a + part + b) {
        let (a, b) = choose|a: Seq<char>, b: Seq<char>| s == #[trigger] (a + part + b);
        assert(s.subrange(a.len() as int, (a.len() + part.len()) as int) =~= part);
        assert(text::occurs_at(s, part, a.len() as int));
    }
}

/// Ten characters are decimal digits; with the first six letters, small or capital, there are the
/// hexadecimal ones.
pub proof fn law_digits_have_their_values(c: char)
    ensures
        '0' <= c <= '9' ==> number::digit_value(c, 10) == Some(c as int - '0' as int)
            && number::digit_value(c, 16) == Some(c as int - '0' as int),
        !('0' <= c <= '9') ==> number::digit_value(c, 10) is None,
        'a' <= c <= 'f' ==> number::digit_value(c, 16) == Some(c as int - 'a' as int + 10),
        'A' <= c <= 'F' ==> number::digit_value(c, 16) == Some(c as int - 'A' as int + 10),
        !('0' <= c <= '9' || 'a' <= c <= 'f' || 'A' <= c <= 'F') ==> number::digit_value(c, 16)
            is None,
{
}

/// A further digit makes a number its multiple by the radix and adds the digit; what is no digit
/// makes it none.
pub proof fn law_digits_count_by_their_places(s: Seq<char>, c: char, radix: int)
    ensures
        number::digits_value(seq![], radix) == Some(0int),
        number::digits_value(s, radix) matches Some(v) ==> (number::digit_value(c, radix)
            matches Some(d) ==> number::digits_value(s.push(c), radix) == Some(v * radix + d)),
        number::digits_value(s, radix) is None || number::digit_value(c, radix) is None
            ==> number::digits_value(s.push(c), radix) is None,
{
    assert(s.push(c).drop_last() =~= s);
}

/// A number is at least one digit, and a plus sign before it changes nothing. It is read where it
/// is not too large.
pub proof fn law_numbers_are_digits(s: Seq<char>, radix: int, max: int)
    requires
        s.len() > 0,
        s[0] != '+',
    ensures
        number::number(seq![], radix, max) is None,
        number::number(seq!['+'], radix, max) is None,
        number::number(seq!['+'] + s, radix, max) == number::number(s, radix, max),
        number::digits_value(s, radix) is None ==> number::number(s, radix, max) is None,
        number::digits_value(s, radix) matches Some(v) ==> {
            &&& v <= max ==> number::number(s, radix, max) == Some(v)
            &&& v > max ==> number::number(s, radix, max) is None
        },
{
    assert((seq!['+'] + s).skip(1) =~= s);
    assert(seq!['+'].skip(1) =~= Seq::<char>::empty());
}

/// A hexadecimal number is written in digits of one case, without zeros in front, and read back as
/// the same number.
pub proof fn law_hexadecimal_numbers_are_read_back(n: nat, upper: bool)
    ensures
        number::digits_value(number::hex(n, upper), 16) == Some(n as int),
        forall|i: int|
            0 <= i < number::hex(n, upper).len() ==> {
                ||| '0' <= #[trigger] number::hex(n, upper)[i] <= '9'
                ||| upper && 'A' <= number::hex(n, upper)[i] <= 'F'
                ||| !upper && 'a' <= number::hex(n, upper)[i] <= 'f'
            },
        number::hex(n, upper).len() > 0,
        n > 0 ==> number::hex(n, upper)[0] != '0',
        n == 0 ==> number::hex(n, upper).len() == 1,
    decreases n,
{
    number::lemma_hex_value(n, upper);
    if n >= 16 {
        law_hexadecimal_numbers_are_read_back(n / 16, upper);
        let h = number::hex(n, upper);
        let front = number::hex(n / 16, upper);
        assert forall|i: int| 0 <= i < h.len() implies {
            ||| '0' <= #[trigger] h[i] <= '9'
            ||| upper && 'A' <= h[i] <= 'F'
            ||| !upper && 'a' <= h[i] <= 'f'
        } by {
            if i < front.len() {
                assert(h[i] == front[i]);
            }
        }
        assert(h[0] == front[0]);
    }
}

/// The code point of a character is written with capital digits after `U+`: four of them on the
/// basic plane, and beyond it as many as there are.
pub proof fn law_labels_have_four_digits_or_more(c: char)
    ensures
        codepoint::codepoint_label(c).len() >= 6,
        codepoint::codepoint_label(c)[0] == 'U',
        codepoint::codepoint_label(c)[1] == '+',
        number::digits_value(codepoint::codepoint_label(c).skip(2), 16) == Some(c as int),
        forall|i: int|
            2 <= i < codepoint::codepoint_label(c).len() ==> {
                ||| '0' <= #[trigger] codepoint::codepoint_label(c)[i] <= '9'
                ||| 'A' <= codepoint::codepoint_label(c)[i] <= 'F'
            },
        c as int <= 0xFFFF ==> codepoint::codepoint_label(c).len() == 6,
        c as int > 0xFFFF ==> codepoint::codepoint_label(c)[2] != '0',
{
    let n = c as nat;
    let h = number::hex(n, true);
    let label = codepoint::codepoint_label(c);
    law_hexadecimal_numbers_are_read_back(n, true);
    number::lemma_padded_hex(n);
    assert(label.skip(2) =~= number::padded(h));
    lemma_hex_size(n);
    assert forall|i: int| 2 <= i < label.len() implies {
        ||| '0' <= #[trigger] label[i] <= '9'
        ||| 'A' <= label[i] <= 'F'
    } by {
        if h.len() < 4 {
            if i - 2 >= 4 - h.len() {
                assert(label[i] == h[i - 2 - (4 - h.len())]);
            }
        } else {
            assert(label[i] == h[i - 2]);
        }
    }
}

proof fn lemma_hex_size(n: nat)
    ensures
        n <= 0xFFFF ==> number::hex(n, true).len() <= 4,
        n > 0xFFFF ==> number::hex(n, true).len() > 4,
{
    reveal_with_fuel(number::hex, 6);
}

/// A text is read as a code point exactly if it is `U+` or `u+` and four to six characters that
/// write the number of a character, and what is read is that character.
pub proof fn law_code_points_are_numbers_of_characters(input: Seq<char>)
    ensures
        input.len() < 6 || input.len() > 8 ==> codepoint::codepoint_text(input) is None,
        input.len() >= 2 && input[0] != 'U' && input[0] != 'u' ==> codepoint::codepoint_text(
            input,
        ) is None,
        input.len() >= 2 && input[1] != '+' ==> codepoint::codepoint_text(input) is None,
        6 <= input.len() <= 8 && (input[0] == 'U' || input[0] == 'u') && input[1] == '+' ==> {
            let digits = if input[2] == '+' {
                input.skip(3)
            } else {
                input.skip(2)
            };
            match number::digits_value(digits, 16) {
                Some(v) => if 0 <= v < 0xD800 || 0xE000 <= v < 0x110000 {
                    codepoint::codepoint_text(input) == Some(seq![v as char])
                } else {
                    codepoint::codepoint_text(input) is None
                },
                None => codepoint::codepoint_text(input) is None,
            }
        },
{
    if 6 <= input.len() <= 8 {
        assert(input.skip(2).skip(1) =~= input.skip(3));
        assert(input.skip(2)[0] == input[2]);
    }
}

/// Only characters beyond the basic plane have an address, which names them in small digits.
pub proof fn law_drawings_are_for_characters_beyond_the_basic_plane(c: char)
    ensures
        c as int <= 0xFFFF ==> codepoint::glyph_address(c) is None,
        c as int >= 0x10000 ==> codepoint::glyph_address(c) == Some(
            "https://glyphwiki.org/glyph/u"@ + number::hex(c as nat, false) + ".svg"@,
        ),
{
}

/// The Han characters fill five blocks.
pub proof fn law_han_characters_fill_five_blocks(c: char)
    ensures
        '\u{3400}' <= c <= '\u{4DBF}' ==> han::han(c),
        '\u{4E00}' <= c <= '\u{9FFF}' ==> han::han(c),
        '\u{F900}' <= c <= '\u{FAFF}' ==> han::han(c),
        '\u{20000}' <= c <= '\u{2EBEF}' ==> han::han(c),
        '\u{30000}' <= c <= '\u{323AF}' ==> han::han(c),
        c < '\u{3400}' ==> !han::han(c),
        '\u{4DBF}' < c < '\u{4E00}' ==> !han::han(c),
        '\u{9FFF}' < c < '\u{F900}' ==> !han::han(c),
        '\u{FAFF}' < c < '\u{20000}' ==> !han::han(c),
        '\u{2EBEF}' < c < '\u{30000}' ==> !han::han(c),
        '\u{323AF}' < c ==> !han::han(c),
{
}

/// The Han characters of two texts put together are those of each, and a single character is kept
/// exactly if it is Han.
pub proof fn law_han_characters_are_kept_in_place(a: Seq<char>, b: Seq<char>, c: char)
    ensures
        han::han_only(a + b) == han::han_only(a) + han::han_only(b),
        han::han(c) ==> han::han_only(seq![c]) == seq![c],
        !han::han(c) ==> han::han_only(seq![c]) == Seq::<char>::empty(),
{
    let p = |c: char| han::han(c);
    Seq::filter_distributes_over_add(a, b, p);
    reveal_with_fuel(Seq::filter, 2);
    assert(seq![c].drop_last() =~= Seq::<char>::empty());
    assert(han::han_only(seq![c]) =~= if han::han(c) {
        seq![c]
    } else {
        seq![]
    });
}

/// `k` is where `a` and `b` first differ, and `a` has the smaller character there.
pub open spec fn smaller_at(a: Seq<char>, b: Seq<char>, k: int) -> bool {
    &&& 0 <= k < a.len()
    &&& k < b.len()
    &&& a.take(k) == b.take(k)
    &&& (a[k] as int) < (b[k] as int)
}

/// A text comes no later than another exactly if it is a beginning of it, or has the smaller
/// character where they first differ.
pub proof fn law_texts_are_ordered_by_their_first_difference(a: Seq<char>, b: Seq<char>)
    ensures
        key::text_le(a, b) <==> a.is_prefix_of(b) || exists|k: int| smaller_at(a, b, k),
    decreases a.len(),
{
    if a.len() == 0 {
        assert(b.subrange(0, 0) =~= a);
    } else if b.len() == 0 {
    } else if a[0] != b[0] {
        assert(a.is_prefix_of(b) ==> b.subrange(0, a.len() as int)[0] == a[0]);
        assert(a.take(0) =~= b.take(0));
        if (a[0] as int) < (b[0] as int) {
            assert(smaller_at(a, b, 0));
        }
        assert forall|k: int| smaller_at(a, b, k) implies k == 0 by {
            if k > 0 {
                assert(a.take(k)[0] == b.take(k)[0]);
            }
        }
    } else {
        let a1 = a.skip(1);
        let b1 = b.skip(1);
        law_texts_are_ordered_by_their_first_difference(a1, b1);
        assert(a =~= seq![a[0]] + a1);
        assert(b =~= seq![b[0]] + b1);
        if a1.is_prefix_of(b1) {
            assert(a =~= b.subrange(0, a.len() as int)) by {
                assert forall|i: int| 0 <= i < a.len() implies a[i] == b[i] by {
                    if i > 0 {
                        assert(b1.subrange(0, a1.len() as int)[i - 1] == a1[i - 1]);
                    }
                }
            }
        }
        if a.is_prefix_of(b) {
            assert(a1 =~= b1.subrange(0, a1.len() as int)) by {
                assert forall|i: int| 0 <= i < a1.len() implies a1[i] == b1[i] by {
                    assert(b.subrange(0, a.len() as int)[i + 1] == a[i + 1]);
                }
            }
        }
        if exists|k: int| smaller_at(a1, b1, k) {
            let k = choose|k: int| smaller_at(a1, b1, k);
            assert(a.take(k + 1) =~= seq![a[0]] + a1.take(k));
            assert(b.take(k + 1) =~= seq![b[0]] + b1.take(k));
            assert(smaller_at(a, b, k + 1));
        }
        if exists|k: int| smaller_at(a, b, k) {
            let k = choose|k: int| smaller_at(a, b, k);
            assert(k > 0);
            assert(a1.take(k - 1) =~= a.take(k).skip(1));
            assert(b1.take(k - 1) =~= b.take(k).skip(1));
            assert(smaller_at(a1, b1, k - 1));
        }
    }
}

/// The key of a list of components without spaces lists the same components, each as often, in the
/// order of texts.
pub proof fn law_keys_list_the_components_in_order(p: Seq<Seq<char>>)
    requires
        p.len() > 0,
        forall|i: int| 0 <= i < p.len() ==> !(#[trigger] p[i]).contains(' '),
    ensures
        text::fields(key::key_of(p), ' ').to_multiset() == p.to_multiset(),
        forall|i: int, j: int|
            0 <= i < j < text::fields(key::key_of(p), ' ').len() ==> key::text_le(
                #[trigger] text::fields(key::key_of(p), ' ')[i],
                #[trigger] text::fields(key::key_of(p), ' ')[j],
            ),
{
    let order = key::text_order();
    let s = p.sort_by(order);
    key::lemma_text_order_total();
    p.lemma_sort_by_ensures(order);
    p.to_multiset_ensures();
    s.to_multiset_ensures();
    assert forall|i: int| 0 <= i < s.len() implies !(#[trigger] s[i]).contains(' ') by {
        assert(s.contains(s[i]));
        assert(s.to_multiset().count(s[i]) > 0);
        assert(p.contains(s[i]));
    }
    text::lemma_fields_of_joined(s, ' ');
    assert forall|i: int, j: int| 0 <= i < j < s.len() implies key::text_le(
        #[trigger] s[i],
        #[trigger] s[j],
    ) by {
        assert(order(s[i], s[j]));
    }
}

/// Of two texts that are kept, the one that occurs first comes first.
pub proof fn law_distinct_texts_keep_their_order(s: Seq<Seq<char>>, n: nat, i: int, j: int)
    requires
        0 <= i < j < distinct::first_distinct(s, n).len(),
    ensures
        exists|a: int|
            0 <= a < s.len() && #[trigger] s[a] == distinct::first_distinct(s, n)[i] && (forall|
                b: int,
            |
                0 <= b < s.len() && #[trigger] s[b] == distinct::first_distinct(s, n)[j] ==> a < b),
{
    let none = Seq::<Seq<char>>::empty();
    lemma_kept_order(s, i, j);
    assert(distinct::first_distinct(s, n)[i] == s.remove_duplicates(none)[i]);
    assert(distinct::first_distinct(s, n)[j] == s.remove_duplicates(none)[j]);
}

proof fn lemma_kept_order(s: Seq<Seq<char>>, i: int, j: int)
    requires
        0 <= i < j < s.remove_duplicates(seq![]).len(),
    ensures
        exists|a: int|
            0 <= a < s.len() && #[trigger] s[a] == s.remove_duplicates(seq![])[i] && (forall|b: int|
                0 <= b < s.len() && #[trigger] s[b] == s.remove_duplicates(seq![])[j] ==> a < b),
    decreases s.len(),
{
    let none = Seq::<Seq<char>>::empty();
    let all = s.remove_duplicates(none);
    if s.len() > 0 {
        let t = s.drop_last();
        let x = s.last();
        let got = t.remove_duplicates(none);
        t.lemma_remove_duplicates_append(x, none);
        t.lemma_remove_duplicates_properties(none);
        assert(t + none =~= t);
        assert(t + seq![x] =~= s);
        if j < got.len() {
            lemma_kept_order(t, i, j);
            let a = choose|a: int|
                0 <= a < t.len() && #[trigger] t[a] == got[i] && (forall|b: int|
                    0 <= b < t.len() && #[trigger] t[b] == got[j] ==> a < b);
            assert(s[a] == all[i]);
            assert forall|b: int| 0 <= b < s.len() && #[trigger] s[b] == all[j] implies a < b by {
                if b < t.len() {
                    assert(t[b] == got[j]);
                }
            }
        } else {
            assert(all == got + seq![x]);
            assert(got.contains(got[i]));
            assert(t.contains(got[i]));
            let a = choose|a: int| 0 <= a < t.len() && t[a] == got[i];
            assert(s[a] == all[i]);
            assert forall|b: int| 0 <= b < s.len() && #[trigger] s[b] == all[j] implies a < b by {
                if b < t.len() {
                    assert(t[b] == x);
                    assert(t.contains(x));
                }
            }
        }
    } else {
        assert(all =~= none);
    }
}

/// Padding puts zeros in front, up to a length of four.
pub proof fn law_padding_puts_zeros_in_front(s: Seq<char>)
    ensures
        s.len() >= 4 ==> number::padded(s) == s,
        s.len() < 4 ==> number::padded(s).len() == 4,
        s.len() < 4 ==> number::padded(s).skip(4 - s.len()) == s,
        forall|i: int| 0 <= i < 4 - s.len() ==> #[trigger] number::padded(s)[i] == '0',
{
    if s.len() < 4 {
        assert(number::padded(s).skip(4 - s.len()) =~= s);
    }
}

} // verus!
