use cyeam_api::codepoint::{glyph_of, label_of};
use cyeam_api::number::{parse_number, to_hex, to_padded_hex};
use cyeam_api::reading::{or_blank, pinyin_of, pinyin_of_first};
use cyeam_api::text::{
    contains, is_whitespace, join, lines, split, split_whitespace, starts_with, trim,
};
use cyeam_api::{han_characters, is_han, parse_codepoint};

const SAMPLES: [&str; 12] = [
    "",
    " ",
    "a",
    "a b",
    "\ta\t\tb\t",
    "line\nline\r\nlast",
    "line\n\n\r\n\r",
    "a\rb\n",
    "\u{3000}全角\u{3000}",
    "豐去皿",
    "|x||y|",
    "𦏶 𦏶\u{85}z",
];

#[test]
fn parses_valid_codepoints() {
    assert_eq!(parse_codepoint("U+263F6"), Some("𦏶".to_owned()));
    assert_eq!(parse_codepoint("U+D800"), None);
}

#[test]
fn parses_codepoints_of_four_to_six_digits() {
    assert_eq!(parse_codepoint("u+4e00"), Some("一".to_owned()));
    assert_eq!(parse_codepoint("U+04E00"), Some("一".to_owned()));
    assert_eq!(parse_codepoint("u+004e00"), Some("一".to_owned()));
    assert_eq!(parse_codepoint("u+0263f6"), Some("𦏶".to_owned()));
    assert_eq!(parse_codepoint("U+10FFFF"), Some("\u{10FFFF}".to_owned()));
    assert_eq!(parse_codepoint("U++4E0"), Some("\u{4E0}".to_owned()));
    for bad in [
        "", "U", "U+", "U+4E0", "U+0004E00", "U+110000", "U+DFFF", "4E00", "U+4E0G", "U-4E00",
        "UU+4E00", "U+ 4E00", "U+-4E0", "U+一二三四",
    ] {
        assert_eq!(parse_codepoint(bad), None, "{bad}");
    }
}

#[test]
fn labels_are_read_back() {
    for c in ['\0', 'a', '一', '\u{FFFD}', '𦏶', '\u{10FFFF}'] {
        assert_eq!(label_of(c), format!("U+{:04X}", c as u32));
        assert_eq!(parse_codepoint(&label_of(c)), Some(c.to_string()));
    }
    assert_eq!(glyph_of('\u{FFFF}'), None);
    assert_eq!(
        glyph_of('\u{10000}'),
        Some("https://glyphwiki.org/glyph/u10000.svg".to_owned())
    );
}

#[test]
fn reads_numbers() {
    assert_eq!(parse_number("0", 10, 9), Some(0));
    assert_eq!(parse_number("+42", 10, 42), Some(42));
    assert_eq!(parse_number("43", 10, 42), None);
    assert_eq!(parse_number("0000000000000000000000042", 10, 42), Some(42));
    assert_eq!(parse_number("4294967295", 10, u32::MAX), Some(u32::MAX));
    assert_eq!(parse_number("99999999999999999999999", 10, u32::MAX), None);
    assert_eq!(parse_number("fF", 16, u32::MAX), Some(255));
    for bad in ["", "+", "-1", "++1", "1 ", "a", "１"] {
        assert_eq!(parse_number(bad, 10, u32::MAX), None);
    }
    assert_eq!(to_hex(0, true), "0");
    assert_eq!(to_hex(0xabc, false), "abc");
    assert_eq!(to_padded_hex(0xab), "00AB");
    assert_eq!(to_padded_hex(0x12345), "12345");
}

#[test]
fn knows_white_space() {
    for c in '\0'..=char::MAX {
        assert_eq!(is_whitespace(c), c.is_whitespace(), "{c:?}");
    }
}

#[test]
fn takes_texts_apart() {
    for s in SAMPLES {
        assert_eq!(lines(s), s.lines().collect::<Vec<&str>>(), "{s:?}");
        assert_eq!(split_whitespace(s), s.split_whitespace().collect::<Vec<&str>>(), "{s:?}");
        assert_eq!(trim(s), s.trim(), "{s:?}");
        for c in ['\t', '|', ' ', 'a'] {
            assert_eq!(split(s, c), s.split(c).collect::<Vec<&str>>(), "{s:?}");
        }
    }
}

#[test]
fn looks_into_texts() {
    for s in SAMPLES {
        for part in SAMPLES {
            assert_eq!(starts_with(s, part), s.starts_with(part), "{s:?} {part:?}");
            assert_eq!(contains(s, part), s.contains(part), "{s:?} {part:?}");
        }
    }
    assert!(contains("aab", "ab"));
    assert!(!contains("aba", "bb"));
}

#[test]
fn puts_texts_together() {
    let parts = vec!["a".to_owned(), String::new(), "月".to_owned()];
    assert_eq!(join(&parts, ' '), "a  月");
    assert_eq!(join(&Vec::new(), ' '), "");
}

#[test]
fn knows_han_characters() {
    for (first, last) in [
        ('\u{3400}', '\u{4DBF}'),
        ('\u{4E00}', '\u{9FFF}'),
        ('\u{F900}', '\u{FAFF}'),
        ('\u{20000}', '\u{2EBEF}'),
        ('\u{30000}', '\u{323AF}'),
    ] {
        assert!(is_han(first));
        assert!(is_han(last));
    }
    for c in [
        '\u{33FF}', '\u{4DC0}', '\u{A000}', '\u{F8FF}', '\u{FB00}', '\u{1FFFF}', '\u{2EBF0}',
        '\u{2FFFF}', '\u{323B0}', 'a', '、', 'あ',
    ] {
        assert!(!is_han(c));
    }
    assert_eq!(han_characters("a你、好 𦏶!"), "你好𦏶");
    assert_eq!(han_characters("abc"), "");
}

#[test]
fn reads_pinyin() {
    assert_eq!(pinyin_of('中'), "zhōng");
    assert_eq!(pinyin_of('绿'), "lǜ");
    assert_eq!(pinyin_of('a'), "");
    assert_eq!(pinyin_of_first("好中"), "hǎo");
    assert_eq!(pinyin_of_first(""), "");
    assert_eq!(or_blank(Some("nǐ".to_owned())), "nǐ");
    assert_eq!(or_blank(None), "");
}
