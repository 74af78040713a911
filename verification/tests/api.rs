use cyeam_api::api::{
    lookup_characters, lookup_grade, lookup_pinyin, search, spell, PinyinCharacter,
};
use cyeam_api::http::{allowed_origin, cors, head, health, port, ApiError, Cors, Header};
use cyeam_api::telemetry::{request_record, settings, AttributeValue};
use cyeam_api::{Dictionary, GradeTexts, Sources, Word};

fn dictionary() -> Dictionary {
    let list = |text: &str| text.to_owned();
    Dictionary::load(&Sources {
        radicals: list("豔\t豐 去 皿\n艷\t豐 色\n明\t日 月\n盟\t日 月 皿\n"),
        component_variants: String::new(),
        jp_variants: list("豐 豊\n"),
        char_variants: list("豔 艷 艳\n月 肉\n"),
        ids_struct: String::new(),
        strokes: list("U+6708|月|4\n"),
        words: list("明天\n"),
        grades: GradeTexts {
            onegrade1st: list("一、明 a"),
            onegrade2nd: String::new(),
            twograde1st: String::new(),
            twograde2nd: String::new(),
            threegrade1st: String::new(),
            threegrade2nd: String::new(),
            fourgrade1st: String::new(),
            fourgrade2nd: String::new(),
            fivegrade1st: String::new(),
            fivegrade2nd: String::new(),
            sixgrade1st: String::new(),
            sixgrade2nd: String::new(),
        },
    })
}

fn names(words: &[Word]) -> Vec<&str> {
    words.iter().map(|word| word.word.as_str()).collect()
}

fn refusal<T>(reply: Result<T, ApiError>) -> (u16, &'static str) {
    match reply {
        Ok(_) => panic!("the request was not refused"),
        Err(e) => (e.status, e.error),
    }
}

fn pairs(headers: &[Header]) -> Vec<(&str, &str)> {
    headers.iter().map(|header| (header.name, header.value.as_str())).collect()
}

#[test]
fn answers_a_search() {
    let dictionary = dictionary();
    let reply = search(&dictionary, Some(" 豊去皿\n")).unwrap();
    assert_eq!(reply.parts, "豊去皿");
    assert_eq!(names(&reply.exact), vec!["豔"]);
    assert!(reply.partial.is_empty());
    assert_eq!(names(&reply.variants), vec!["艷", "艳"]);
    assert!(reply.character_variants.is_empty());
    assert_eq!(reply.single_word, None);
    assert_eq!(reply.exact[0].pinyin, "yàn");
}

#[test]
fn answers_a_search_for_one_component() {
    let dictionary = dictionary();
    for raw in ["月", "U+6708", " u+6708 "] {
        let reply = search(&dictionary, Some(raw)).unwrap();
        assert_eq!(reply.parts, "月");
        assert!(reply.exact.is_empty());
        assert_eq!(names(&reply.partial), vec!["明", "盟"]);
        assert_eq!(names(&reply.character_variants), vec!["肉"]);
        assert_eq!(reply.single_word, Some(dictionary.word_for_char("月")));
    }
}

#[test]
fn refuses_bad_searches() {
    let dictionary = dictionary();
    assert_eq!(
        refusal(search(&dictionary, None)),
        (400, "the parts query parameter is required")
    );
    for raw in ["", "  \t", "日日日日日日日日日"] {
        assert_eq!(
            refusal(search(&dictionary, Some(raw))),
            (400, "parts must contain 1 to 8 supported Han characters")
        );
    }
    for raw in ["好", "日x", "U+D800", "U+597D"] {
        assert_eq!(
            refusal(search(&dictionary, Some(raw))),
            (400, "parts contains an unsupported component")
        );
    }
    assert!(search(&dictionary, Some("日日日日日日日日")).is_ok());
}

#[test]
fn describes_given_matches() {
    let dictionary = dictionary();
    let reply = dictionary.describe_matches("豐".to_owned(), &[1], &[0]);
    assert_eq!(names(&reply.exact), vec!["艷"]);
    assert_eq!(names(&reply.partial), vec!["豔"]);
    assert!(reply.variants.is_empty());
    assert!(reply.character_variants.is_empty());
    assert_eq!(reply.single_word, Some(dictionary.word_for_char("豐")));
}

#[test]
fn looks_up_characters() {
    let dictionary = dictionary();
    let reply = lookup_characters(&dictionary, Some("a明、好")).unwrap();
    assert_eq!(reply.text, "明好");
    assert_eq!(reply.words, dictionary.character_words("明好"));
    assert_eq!(reply.words[0].bushou, "日");
    assert_eq!(reply.words[0].zuci, vec!["明天".to_owned(), String::new()]);
    assert_eq!(
        refusal(lookup_characters(&dictionary, None)),
        (400, "the text query parameter is required")
    );
    assert_eq!(
        refusal(lookup_characters(&dictionary, Some("abc"))),
        (400, "text must contain 1 to 204 Han characters")
    );
    assert_eq!(
        refusal(lookup_characters(&dictionary, Some(&"明".repeat(205)))),
        (400, "text must contain 1 to 204 Han characters")
    );
    let most = format!("{}abc", "明".repeat(204));
    assert_eq!(lookup_characters(&dictionary, Some(&most)).unwrap().words.len(), 204);
}

#[test]
fn looks_up_grades() {
    let dictionary = dictionary();
    let reply = lookup_grade(&dictionary, "onegrade1st").unwrap();
    assert_eq!(reply.grade, "onegrade1st");
    assert_eq!(reply.text, "一明");
    assert_eq!(reply.words, dictionary.character_words("一明"));
    let reply = lookup_grade(&dictionary, "sixgrade2nd").unwrap();
    assert_eq!((reply.text.as_str(), reply.words.len()), ("", 0));
    assert_eq!(refusal(lookup_grade(&dictionary, "sevengrade")), (404, "unknown grade"));
}

#[test]
fn looks_up_pinyin() {
    let reply = lookup_pinyin(Some("你a")).unwrap();
    assert_eq!(reply.text, "你a");
    assert!(!reply.truncated);
    let spelled = |character: &str, pinyin: &str| PinyinCharacter {
        character: character.to_owned(),
        pinyin: pinyin.to_owned(),
    };
    assert_eq!(reply.characters, vec![spelled("你", "nǐ"), spelled("a", "")]);
    assert_eq!(spell('好', Some("hǎo".to_owned())), spelled("好", "hǎo"));
    assert_eq!(spell('好', None), spelled("好", ""));
    assert_eq!(refusal(lookup_pinyin(None)), (400, "the text query parameter is required"));
    assert_eq!(lookup_pinyin(Some("")).unwrap().characters, vec![]);
    let long = format!("{}b", "a".repeat(204));
    let reply = lookup_pinyin(Some(&long)).unwrap();
    assert!(reply.truncated);
    assert_eq!(reply.text, "a".repeat(204));
    assert_eq!(reply.characters.len(), 204);
    assert!(!lookup_pinyin(Some(&"a".repeat(204))).unwrap().truncated);
}

#[test]
fn results_may_be_cached_and_refusals_not() {
    let found = head(&lookup_pinyin(Some("你")));
    assert_eq!(found.status, 200);
    assert_eq!(
        pairs(&found.headers),
        vec![("cache-control", "public, max-age=300, s-maxage=86400")]
    );
    let refused = head(&lookup_pinyin(None));
    assert_eq!(refused.status, 400);
    assert!(refused.headers.is_empty());
}

#[test]
fn only_the_site_may_read() {
    assert!(allowed_origin(b"https://www.cyeam.com"));
    assert!(allowed_origin(b"https://cyeam.com"));
    let others: [&[u8]; 6] = [
        b"",
        b"http://cyeam.com",
        b"https://cyeam.com/",
        b"https://api.cyeam.com",
        b"https://cyeam.com\xff",
        b"HTTPS://CYEAM.COM",
    ];
    for origin in others {
        assert!(!allowed_origin(origin));
    }
}

#[test]
fn decides_on_origins() {
    let forwarded = |action: Cors| match action {
        Cors::Answer(status) => panic!("answered with {status}"),
        Cors::Forward(headers) => headers,
    };
    assert!(matches!(cors("OPTIONS", Some(b"https://cyeam.com")), Cors::Answer(204)));
    assert!(matches!(cors("OPTIONS", None), Cors::Answer(204)));
    let headers = forwarded(cors("GET", Some(b"https://www.cyeam.com")));
    assert_eq!(
        pairs(&headers),
        vec![
            ("access-control-allow-origin", "https://www.cyeam.com"),
            ("vary", "Origin")
        ]
    );
    assert!(forwarded(cors("GET", Some(b"https://example.com"))).is_empty());
    assert!(forwarded(cors("options", None)).is_empty());
}

#[test]
fn picks_the_port() {
    assert_eq!(port(None), 8080);
    assert_eq!(port(Some("9000")), 9000);
    assert_eq!(port(Some("+80")), 80);
    assert_eq!(port(Some("0")), 0);
    assert_eq!(port(Some("65535")), 65535);
    for bad in ["", "65536", "-1", " 80", "http"] {
        assert_eq!(port(Some(bad)), 8080);
    }
}

#[test]
fn is_healthy() {
    assert_eq!(health(), "ok");
}

#[test]
fn reports_only_where_an_endpoint_is_configured() {
    let plain = settings(None, None, None);
    assert_eq!(plain.service_name, "cyeam-api");
    assert_eq!(plain.environment, "production");
    assert!(plain.endpoints.is_none());
    assert!(settings(Some(String::new()), None, None).endpoints.is_none());
    let full = settings(
        Some("https://otlp.example//".to_owned()),
        Some("api".to_owned()),
        Some(String::new()),
    );
    assert_eq!(full.service_name, "api");
    assert_eq!(full.environment, "");
    let endpoints = full.endpoints.unwrap();
    assert_eq!(endpoints.traces, "https://otlp.example/v1/traces");
    assert_eq!(endpoints.metrics, "https://otlp.example/v1/metrics");
    let bare = settings(Some("/".to_owned()), None, None).endpoints.unwrap();
    assert_eq!(bare.traces, "/v1/traces");
}

#[test]
fn counts_requests_and_failures() {
    let record = request_record("GET", "/v1/zuzi", 200);
    assert_eq!((record.requests, record.failures), (1, 0));
    assert_eq!(record.attributes.len(), 3);
    assert_eq!(record.attributes[0].key, "http.request.method");
    assert!(matches!(&record.attributes[0].value, AttributeValue::Text(s) if s == "GET"));
    assert_eq!(record.attributes[1].key, "http.route");
    assert!(matches!(&record.attributes[1].value, AttributeValue::Text(s) if s == "/v1/zuzi"));
    assert_eq!(record.attributes[2].key, "http.response.status_code");
    assert!(matches!(&record.attributes[2].value, AttributeValue::Number(200)));
    assert_eq!(request_record("GET", "/", 499).failures, 0);
    assert_eq!(request_record("GET", "/", 500).failures, 1);
}
