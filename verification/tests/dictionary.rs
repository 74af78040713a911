use cyeam_api::rank::MAX_RESULTS;
use cyeam_api::words::{bare_word, MAX_VARIANTS};
use cyeam_api::{
    add_variant, component_key, grade_map, structure_map, variant_map, CharacterWord, Dictionary,
    Entry, GradeTexts, Sources, Word,
};
use vstd::hash_set::StringHashSet;

const RADICALS: &str = "豔\t豐 去 皿\n\
    艷\t豐 色\n\
    明\t日 月\n\
    盟\t日 月 皿\n\
    萌\t艹 日 月\n\
    朋\t月 月\n\
    昌\t日 日\n\
    晶\t日 日 日\n\
    明\t月 日 一\n\
    \t日 月\n\
    空\n\
    白\t  \n\
    品\t口 口 口\r\n\
    𦏶\t羊 日\n";

const STROKES: &str = "U+65E5|日|4|x\n\
    U+6708|月|4\n\
    U+76BF|皿|5\n\
    U+5E74|年|six\n\
    U+8279|艹\n\
    U+53E3|口|3\r\n\
    U+53BB|去|+5\n";

fn grade_texts() -> GradeTexts {
    GradeTexts {
        onegrade1st: "一、二 三\nabc".to_owned(),
        onegrade2nd: "春".to_owned(),
        twograde1st: "两".to_owned(),
        twograde2nd: "找".to_owned(),
        threegrade1st: "晨".to_owned(),
        threegrade2nd: "燕".to_owned(),
        fourgrade1st: "潮".to_owned(),
        fourgrade2nd: "乡".to_owned(),
        fivegrade1st: "宜".to_owned(),
        fivegrade2nd: "昼".to_owned(),
        sixgrade1st: "毯".to_owned(),
        sixgrade2nd: "侣".to_owned(),
    }
}

fn sources() -> Sources {
    Sources {
        radicals: RADICALS.to_owned(),
        component_variants: "月 ⺼\n艹 ⺿ 草\nlonely\n".to_owned(),
        jp_variants: "豐 豊\n".to_owned(),
        char_variants: "豔 艷 艳\n明 朙\n月 肉\n".to_owned(),
        ids_struct: "明\t⿰\t日 月\n豔\t⿰\t豐 盍\n萌\t⿱\t艹 明\n品\t?\t口 吅\n坏\t⿰\n"
            .to_owned(),
        strokes: STROKES.to_owned(),
        words: "  光明 \n\n明天\n明月\n明天\n月光\n".to_owned(),
        grades: grade_texts(),
    }
}

fn dictionary() -> Dictionary {
    Dictionary::load(&sources())
}

fn texts(list: &[&str]) -> Vec<String> {
    list.iter().map(|text| text.to_string()).collect()
}

fn words(dictionary: &Dictionary, indexes: &[usize]) -> Vec<String> {
    indexes.iter().map(|index| dictionary.entries[*index].word.clone()).collect()
}

fn names(words: &[Word]) -> Vec<String> {
    words.iter().map(|word| word.word.clone()).collect()
}

#[test]
fn finds_exact_and_simplified_component_matches() {
    let dictionary = dictionary();
    let (exact, _) = dictionary.search("豐去皿");
    assert!(exact.iter().any(|index| dictionary.entries[*index].word == "豔"));
    let (exact, _) = dictionary.search("豊去皿");
    assert!(exact.iter().any(|index| dictionary.entries[*index].word == "豔"));
}

#[test]
fn loads_the_entries() {
    let dictionary = dictionary();
    let all: Vec<usize> = (0..dictionary.entries.len()).collect();
    assert_eq!(
        words(&dictionary, &all),
        texts(&["豔", "艷", "明", "盟", "萌", "朋", "昌", "晶", "明", "品", "𦏶"])
    );
    assert_eq!(dictionary.entries[3].parts, texts(&["日", "月", "皿"]));
    assert_eq!(dictionary.entries[9].parts, texts(&["口", "口", "口"]));
}

#[test]
fn counts_strokes_after_the_radical() {
    let dictionary = dictionary();
    let strokes: Vec<u32> =
        dictionary.entries.iter().map(|entry| entry.strokes_after_radical).collect();
    assert_eq!(strokes, vec![10, 0, 4, 9, 8, 4, 4, 8, 4, 6, 4]);
    assert_eq!(dictionary.strokes.get("日"), Some(&4));
    assert_eq!(dictionary.strokes.get("去"), Some(&5));
    assert_eq!(dictionary.strokes.get("年"), None);
    assert_eq!(dictionary.strokes.get("艹"), None);
}

#[test]
fn too_many_strokes_are_refused() {
    let mut sources = sources();
    sources.strokes = "a|日|4294967295\nb|月|1\n".to_owned();
    assert!(Dictionary::try_load(&sources).is_none());
    sources.radicals = "昌\t日 日\n".to_owned();
    let dictionary = Dictionary::try_load(&sources);
    assert_eq!(dictionary.map(|d| d.entries[0].strokes_after_radical), Some(4294967295));
}

#[test]
fn a_stroke_count_out_of_range_is_ignored() {
    let mut sources = sources();
    sources.strokes = "a|日|4294967296\nb|月|-1\nc|皿|\nd|口|7\ne|口|8\n".to_owned();
    let dictionary = Dictionary::load(&sources);
    assert_eq!(dictionary.strokes.get("日"), None);
    assert_eq!(dictionary.strokes.get("月"), None);
    assert_eq!(dictionary.strokes.get("皿"), None);
    assert_eq!(dictionary.strokes.get("口"), Some(&8));
}

#[test]
fn indexes_the_entries() {
    let dictionary = dictionary();
    assert_eq!(dictionary.exact.get("日 月"), Some(&vec![2]));
    assert_eq!(dictionary.exact.get("月 日"), None);
    assert_eq!(dictionary.by_part.get("日"), Some(&vec![2, 3, 4, 6, 7, 8, 10]));
    assert_eq!(dictionary.by_part.get("晶"), None);
    assert_eq!(dictionary.by_word.get("明"), Some(&2));
    assert_eq!(dictionary.by_word.get("空"), None);
    assert_eq!(dictionary.phrases, texts(&["光明", "明天", "明月", "明天", "月光"]));
}

#[test]
fn finds_exact_matches_in_any_order() {
    let dictionary = dictionary();
    for parts in ["日月皿", "皿月日", "月皿日"] {
        let (exact, partial) = dictionary.search(parts);
        assert_eq!(words(&dictionary, &exact), texts(&["盟"]));
        assert!(partial.is_empty());
    }
}

#[test]
fn partial_matches_have_the_components_and_come_by_size() {
    let dictionary = dictionary();
    let (exact, partial) = dictionary.search("日月");
    assert_eq!(words(&dictionary, &exact), texts(&["明"]));
    let mut found = words(&dictionary, &partial);
    found.sort();
    assert_eq!(found, texts(&["盟", "萌"]));
    let (exact, partial) = dictionary.search("日");
    assert!(exact.is_empty());
    let sizes: Vec<usize> =
        partial.iter().map(|index| dictionary.entries[*index].parts.len()).collect();
    assert_eq!(sizes, vec![2, 2, 2, 3, 3, 3]);
    assert_eq!(partial.iter().filter(|index| dictionary.entries[**index].word == "明").count(), 1);
}

#[test]
fn a_variant_stands_for_its_component() {
    let dictionary = dictionary();
    assert_eq!(dictionary.component_candidates("月"), texts(&["月", "⺼", "肉"]));
    assert_eq!(dictionary.component_candidates("肉"), texts(&["肉", "月"]));
    assert_eq!(dictionary.component_candidates("好"), texts(&["好"]));
    let (exact, _) = dictionary.search("日肉");
    assert_eq!(words(&dictionary, &exact), texts(&["明"]));
    let (exact, _) = dictionary.search("⿰日");
    assert!(exact.is_empty());
}

#[test]
fn repeated_components_need_not_repeat_in_partial_matches() {
    let dictionary = dictionary();
    let (exact, partial) = dictionary.search("日日");
    assert_eq!(words(&dictionary, &exact), texts(&["昌"]));
    assert!(words(&dictionary, &partial).contains(&"明".to_owned()));
    assert!(words(&dictionary, &partial).contains(&"晶".to_owned()));
}

#[test]
fn nothing_is_found_for_unknown_components() {
    let dictionary = dictionary();
    assert!(dictionary.supports("日月"));
    assert!(dictionary.supports("豊肉"));
    assert!(dictionary.supports(""));
    assert!(!dictionary.supports("日x"));
    assert_eq!(dictionary.search("日x"), (vec![], vec![]));
    assert_eq!(dictionary.search(""), (vec![], vec![]));
}

#[test]
fn results_are_limited() {
    let mut sources = sources();
    let mut radicals = String::new();
    for i in 0..150u32 {
        let word = char::from_u32(0x4E00 + i).unwrap();
        radicals.push_str(&format!("{word}\t甲 乙\n"));
    }
    for i in 0..150u32 {
        let word = char::from_u32(0x5E00 + i).unwrap();
        radicals.push_str(&format!("{word}\t甲 乙 丙\n"));
    }
    sources.radicals = radicals;
    let dictionary = Dictionary::load(&sources);
    let (exact, partial) = dictionary.search("甲乙");
    assert_eq!(exact, (0..100).collect::<Vec<usize>>());
    assert_eq!(partial.len(), MAX_RESULTS);
    assert!(partial.iter().all(|index| *index >= 100));
    assert!(partial[..50].iter().all(|index| *index < 150));
    let order: Vec<usize> = (0..300).rev().collect();
    assert_eq!(dictionary.rank(&order), (50..150).rev().collect::<Vec<usize>>());
}

#[test]
fn ranking_keeps_the_first_entry_of_a_character() {
    let dictionary = dictionary();
    assert_eq!(dictionary.rank(&vec![8, 7, 2, 5]), vec![2, 5, 7]);
    assert_eq!(dictionary.rank(&vec![7, 4, 3]), vec![7, 4, 3]);
    assert_eq!(dictionary.rank(&vec![]), Vec::<usize>::new());
}

#[test]
fn describes_a_character() {
    let dictionary = dictionary();
    let expected = Word {
        word: "豔".to_owned(),
        pinyin: "yàn".to_owned(),
        codepoint: "U+8C54".to_owned(),
        parts: texts(&["豐", "去", "皿"]),
        structure: Some("左右结构".to_owned()),
        simple_parts: texts(&["豐", "盍"]),
        glyph_url: None,
    };
    assert_eq!(dictionary.word_for_char("豔"), expected);
    assert_eq!(dictionary.word_from_entry(&dictionary.entries[0]), expected);
    assert_eq!(dictionary.words_for(&[0, 0]), vec![dictionary.word_for_char("豔"), expected]);
}

#[test]
fn a_composition_of_the_same_parts_says_nothing_more() {
    let dictionary = dictionary();
    let word = dictionary.word_for_char("明");
    assert_eq!(word.parts, texts(&["日", "月"]));
    assert_eq!(word.structure, None);
    assert!(word.simple_parts.is_empty());
    let word = dictionary.word_for_char("品");
    assert_eq!(word.structure, Some(String::new()));
    assert_eq!(word.simple_parts, texts(&["口", "吅"]));
}

#[test]
fn characters_beyond_the_basic_plane_have_a_drawing() {
    let dictionary = dictionary();
    let word = dictionary.word_for_char("𦏶");
    assert_eq!(word.codepoint, "U+263F6");
    assert_eq!(word.glyph_url, Some("https://glyphwiki.org/glyph/u263f6.svg".to_owned()));
    assert_eq!(word.parts, texts(&["羊", "日"]));
}

#[test]
fn describes_a_character_without_entry() {
    let dictionary = dictionary();
    let expected = Word {
        word: "好".to_owned(),
        pinyin: "hǎo".to_owned(),
        codepoint: "U+597D".to_owned(),
        parts: vec![],
        structure: None,
        simple_parts: vec![],
        glyph_url: None,
    };
    assert_eq!(dictionary.word_for_char("好"), expected);
    assert_eq!(dictionary.word_without_parts("好"), expected);
    let blank = dictionary.word_without_parts("");
    assert_eq!(blank, bare_word("", String::new()));
    assert_eq!(blank.codepoint, "");
    assert_eq!(dictionary.word_without_parts("a").codepoint, "U+0061");
    assert_eq!(dictionary.word_without_parts("a").pinyin, "");
}

#[test]
fn describes_an_entry_with_a_given_pinyin() {
    let dictionary = dictionary();
    let entry = Entry {
        word: "萌".to_owned(),
        parts: texts(&["艹", "日", "月"]),
        strokes_after_radical: 8,
    };
    let word = dictionary.describe(&entry, "méng".to_owned());
    assert_eq!(word.pinyin, "méng");
    assert_eq!(word.structure, Some("上下结构".to_owned()));
    assert_eq!(word.simple_parts, texts(&["艹", "明"]));
}

#[test]
fn lists_the_variants_of_a_character() {
    let dictionary = dictionary();
    assert_eq!(names(&dictionary.character_variants("豔")), texts(&["艷", "艳"]));
    assert_eq!(names(&dictionary.character_variants("艳")), texts(&["豔"]));
    assert!(dictionary.character_variants("日").is_empty());
    assert_eq!(dictionary.character_variants("豔")[0].parts, texts(&["豐", "色"]));
}

#[test]
fn lists_the_variants_of_exact_matches() {
    let dictionary = dictionary();
    assert_eq!(names(&dictionary.exact_variants(&[0], &[])), texts(&["艷", "艳"]));
    assert_eq!(names(&dictionary.exact_variants(&[0], &[1])), texts(&["艳"]));
    assert_eq!(names(&dictionary.exact_variants(&[0, 1, 2], &[])), texts(&["艳", "朙"]));
    assert!(dictionary.exact_variants(&[], &[0]).is_empty());
}

#[test]
fn variants_are_limited() {
    let mut sources = sources();
    let mut line = "明".to_owned();
    for i in 0..30u32 {
        line.push(' ');
        line.push(char::from_u32(0x5E00 + i).unwrap());
    }
    sources.char_variants = line;
    let dictionary = Dictionary::load(&sources);
    assert_eq!(dictionary.character_variants("明").len(), MAX_VARIANTS);
    let variants = dictionary.exact_variants(&[2], &[]);
    assert_eq!(variants.len(), MAX_VARIANTS);
    assert_eq!(variants[19].word, "\u{5E13}");
}

#[test]
fn describes_a_character_for_learners() {
    let dictionary = dictionary();
    let expected = CharacterWord {
        word: "盟".to_owned(),
        bushou: "日".to_owned(),
        exclude_bushou: "月 皿".to_owned(),
        exclude_bushou_stroke: 9,
        pinyin: "méng".to_owned(),
        zuci: texts(&["", ""]),
    };
    assert_eq!(dictionary.character_word("盟"), expected);
    assert_eq!(dictionary.learn("盟", "méng".to_owned()), expected);
    let missing = dictionary.character_word("好");
    assert_eq!(
        missing,
        CharacterWord {
            word: "好".to_owned(),
            bushou: String::new(),
            exclude_bushou: String::new(),
            exclude_bushou_stroke: 0,
            pinyin: "hǎo".to_owned(),
            zuci: texts(&["", ""]),
        }
    );
}

#[test]
fn describes_every_character_of_a_text() {
    let dictionary = dictionary();
    let described = dictionary.character_words("明好明");
    assert_eq!(described.len(), 3);
    assert_eq!(described[0], dictionary.character_word("明"));
    assert_eq!(described[1], dictionary.character_word("好"));
    assert_eq!(described[2], described[0]);
    assert!(dictionary.character_words("").is_empty());
}

#[test]
fn phrases_that_start_with_the_character_come_first() {
    let dictionary = dictionary();
    assert_eq!(dictionary.phrases_for("明"), texts(&["明天", "明月"]));
    assert_eq!(dictionary.phrases_for("月"), texts(&["月光", "明月"]));
    assert_eq!(dictionary.phrases_for("光"), texts(&["光明", "月光"]));
    assert_eq!(dictionary.phrases_for("天"), texts(&["明天", ""]));
    assert_eq!(dictionary.phrases_for("好"), texts(&["", ""]));
}

#[test]
fn variants_are_mutual_and_listed_once() {
    let mut map = variant_map(&["a b c\nb a\n", "lonely\n\na b d\n"]);
    assert_eq!(map.get("a"), Some(&texts(&["b", "c", "d"])));
    assert_eq!(map.get("b"), Some(&texts(&["a"])));
    assert_eq!(map.get("d"), Some(&texts(&["a"])));
    assert_eq!(map.get("lonely"), None);
    add_variant(&mut map, "b", "a");
    add_variant(&mut map, "b", "e");
    assert_eq!(map.get("b"), Some(&texts(&["a", "e"])));
    add_variant(&mut map, "x", "x");
    assert_eq!(map.get("x"), Some(&texts(&["x"])));
}

#[test]
fn reads_compositions() {
    let map = structure_map("明\t⿰\t日 月\n好\t⿻\t女\t子\n坏\t⿰\n无\tz\t\n");
    let layout = |word: &str| map.get(word).map(|s| (s.name.clone(), s.parts.clone()));
    assert_eq!(layout("明"), Some(("左右结构".to_owned(), texts(&["日", "月"]))));
    assert_eq!(layout("好"), Some(("镶嵌结构".to_owned(), texts(&["女", "子"]))));
    assert_eq!(layout("坏"), None);
    assert_eq!(layout("无"), Some((String::new(), vec![])));
}

#[test]
fn names_the_layouts() {
    let expected = [
        ("⿰", "左右结构"),
        ("⿱", "上下结构"),
        ("⿲", "左中右结构"),
        ("⿳", "上中下结构"),
        ("⿴", "全包围结构"),
        ("⿵", "半包围结构"),
        ("⿶", "半包围结构"),
        ("⿷", "半包围结构"),
        ("⿸", "半包围结构"),
        ("⿹", "半包围结构"),
        ("⿺", "半包围结构"),
        ("⿻", "镶嵌结构"),
        ("⿼", ""),
    ];
    for (layout, name) in expected {
        let map = structure_map(&format!("字\t{layout}\t宀 子"));
        assert_eq!(map.get("字").map(|s| s.name.clone()), Some(name.to_owned()));
    }
}

#[test]
fn grades_have_their_lists() {
    let map = grade_map(&grade_texts());
    assert_eq!(map.len(), 12);
    let expected = [
        ("onegrade1st", "一、二 三\nabc"),
        ("onegrade2nd", "春"),
        ("twograde1st", "两"),
        ("twograde2nd", "找"),
        ("threegrade1st", "晨"),
        ("threegrade2nd", "燕"),
        ("fourgrade1st", "潮"),
        ("fourgrade2nd", "乡"),
        ("fivegrade1st", "宜"),
        ("fivegrade2nd", "昼"),
        ("sixgrade1st", "毯"),
        ("sixgrade2nd", "侣"),
    ];
    for (grade, list) in expected {
        assert_eq!(map.get(grade), Some(&list.to_owned()));
    }
    assert_eq!(map.get("sevengrade1st"), None);
}

#[test]
fn keys_ignore_the_order_of_components() {
    assert_eq!(component_key(&texts(&["月", "日", "皿"])), "日 月 皿");
    assert_eq!(component_key(&texts(&["皿", "日", "月"])), "日 月 皿");
    assert_eq!(component_key(&texts(&["b", "ab", "a", ""])), " a ab b");
    assert_eq!(component_key(&texts(&["𦏶", "\u{FFFD}", "日"])), "日 \u{FFFD} 𦏶");
    assert_eq!(component_key(&vec![]), "");
}

fn entry(word: &str, parts: &[&str]) -> Entry {
    Entry { word: word.to_owned(), parts: texts(parts), strokes_after_radical: 0 }
}

#[test]
fn combinations_need_only_the_index_by_key() {
    let mut dictionary = Dictionary::default();
    dictionary.entries =
        vec![entry("甲", &["a", "c"]), entry("甲", &["b", "c"]), entry("乙", &["c", "b"])];
    dictionary.exact.insert("a c".to_owned(), vec![0]);
    dictionary.exact.insert("b c".to_owned(), vec![1, 2]);
    let candidates = [texts(&["a", "b"]), texts(&["c"])];
    let mut selected = vec![];
    let mut seen = StringHashSet::new();
    let mut output = vec![];
    dictionary.exact_combinations(&candidates, 0, &mut selected, &mut seen, &mut output);
    assert_eq!(output, vec![0, 2]);
    assert!(selected.is_empty());
    assert_eq!(seen.len(), 2);
    assert!(seen.contains("甲") && seen.contains("乙"));
}

#[test]
fn variants_need_no_index_by_key() {
    let mut dictionary = Dictionary::default();
    dictionary.entries = vec![entry("甲", &["x"]), entry("乙", &["x"]), entry("丙", &["x"])];
    dictionary.char_variants.insert("甲".to_owned(), texts(&["乙", "丁"]));
    dictionary.char_variants.insert("乙".to_owned(), texts(&["戊"]));
    dictionary.char_variants.insert("丙".to_owned(), texts(&["丁", "己"]));
    assert_eq!(names(&dictionary.exact_variants(&[0, 2], &[1])), texts(&["丁", "己"]));
    assert_eq!(names(&dictionary.character_variants("甲")), texts(&["乙", "丁"]));
    assert!(dictionary.word_for_char("甲").parts.is_empty());
}

#[test]
fn an_entry_without_components_has_no_radical() {
    let mut dictionary = Dictionary::default();
    dictionary.entries = vec![entry("乙", &[]), entry("甲", &["x", "y", "z"])];
    dictionary.by_word.insert("好".to_owned(), 0);
    dictionary.by_word.insert("甲".to_owned(), 1);
    let described = dictionary.character_word("好");
    assert_eq!(described.word, "乙");
    assert_eq!(described.bushou, "");
    assert_eq!(described.exclude_bushou, "");
    assert_eq!(described.pinyin, "hǎo");
    let described = dictionary.character_word("甲");
    assert_eq!(described.bushou, "x");
    assert_eq!(described.exclude_bushou, "y z");
}

#[test]
fn an_empty_dictionary_finds_nothing() {
    let dictionary = Dictionary::default();
    assert!(!dictionary.supports("日"));
    assert_eq!(dictionary.search("日"), (vec![], vec![]));
    assert_eq!(dictionary.phrases_for("日"), texts(&["", ""]));
}

#[test]
fn no_list_of_the_indexes_is_empty() {
    let dictionary = dictionary();
    assert_eq!(dictionary.exact.len(), 11);
    for (position, entry) in dictionary.entries.iter().enumerate() {
        assert!(dictionary.exact.get(&component_key(&entry.parts)).unwrap().contains(&position));
        for part in &entry.parts {
            let list = dictionary.by_part.get(part).unwrap();
            assert!(list.contains(&position));
            assert!(list.windows(2).all(|pair| pair[0] < pair[1]));
        }
    }
}

#[test]
fn loads_of_one_source_are_equal() {
    let (a, b) = (dictionary(), dictionary());
    assert_eq!(a.exact.len(), b.exact.len());
    assert_eq!(a.by_part.len(), b.by_part.len());
    assert_eq!(a.by_word.len(), b.by_word.len());
    assert_eq!(a.phrases, b.phrases);
    for (x, y) in a.entries.iter().zip(&b.entries) {
        assert_eq!((&x.word, &x.parts), (&y.word, &y.parts));
        assert_eq!(a.exact.get(&component_key(&x.parts)), b.exact.get(&component_key(&x.parts)));
        assert_eq!(a.by_word.get(&x.word), b.by_word.get(&x.word));
    }
}

#[test]
fn the_order_of_components_does_not_change_partial_matches() {
    let dictionary = dictionary();
    let found = |parts: &str| {
        let mut found = words(&dictionary, &dictionary.search(parts).1);
        found.sort();
        found
    };
    assert_eq!(found("日月"), texts(&["盟", "萌"]));
    assert_eq!(found("月日"), found("日月"));
}
