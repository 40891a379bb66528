use hanzi_components::{
    contains_char, extract_char_glosses_with_top_words, tally_char_levels, tally_word_levels, extract_hsk_words, extract_word_glosses,
    replace_str, CharStatistics, ChineseCharacter, ChineseDictionaryElement, TopWord, WordItem,
    WordStatistics,
};

fn word(trad: &str, level: Option<i64>, defs: Vec<Option<Vec<&str>>>) -> ChineseDictionaryElement {
    ChineseDictionaryElement {
        trad: trad.to_string(),
        items: defs
            .into_iter()
            .map(|d| WordItem { definitions: d.map(|v| v.into_iter().map(|s| s.to_string()).collect()) })
            .collect(),
        statistics: level.map(|l| WordStatistics { hsk_level: l }),
    }
}

fn top(word: &str, trad: &str, gloss: &str) -> TopWord {
    TopWord { word: word.to_string(), trad: trad.to_string(), gloss: gloss.to_string() }
}

fn character(c: &str, gloss: Option<&str>, tops: Option<Vec<TopWord>>, variant_of: Option<&str>) -> ChineseCharacter {
    ChineseCharacter {
        char: c.to_string(),
        gloss: gloss.map(|g| g.to_string()),
        statistics: Some(CharStatistics { hsk_level: Some(1), top_words: tops }),
        variant_of: variant_of.map(|v| v.to_string()),
    }
}

#[test]
fn replace_matches_std() {
    for (s, p, r) in [
        ("abcabc", "b", "_"),
        ("aaa", "aa", "_"),
        ("明白", "明", "_"),
        ("ab", "", "_"),
        ("", "", "_"),
        ("", "x", "_"),
        ("xyz", "q", "_"),
    ] {
        assert_eq!(replace_str(s, p, r), s.replace(p, r));
    }
    assert_eq!(replace_str("aaa", "aa", "_"), "_a");
    assert_eq!(replace_str("ab", "", "_"), "_a_b_");
    assert!(contains_char("a_b", '_'));
    assert!(!contains_char("ab", '_'));
}

#[test]
fn hsk_words_grouped_by_level() {
    let words = vec![
        word("你好", Some(1), vec![]),
        word("學生", Some(2), vec![]),
        word("謝謝", Some(1), vec![]),
        word("某", Some(10), vec![]),
        word("無", None, vec![]),
        word("零", Some(0), vec![]),
    ];
    let levels = extract_hsk_words(&words);
    assert_eq!(
        levels,
        vec![
            (1u8, vec!["你好".to_string(), "謝謝".to_string()]),
            (2u8, vec!["學生".to_string()]),
        ]
    );
}

#[test]
fn word_glosses_collect_definitions() {
    let words = vec![
        word("好", None, vec![Some(vec!["good"]), None, Some(vec!["well", "fine"])]),
        word("空", None, vec![None]),
        word("無", None, vec![]),
        word("好", None, vec![Some(vec!["to like"])]),
    ];
    let glosses = extract_word_glosses(&words);
    assert_eq!(glosses.len(), 1);
    assert_eq!(glosses[0].0, "好");
    assert_eq!(glosses[0].1, vec!["to like"]);

    let glosses = extract_word_glosses(&words[..1].iter().map(|w| word(&w.trad, None, vec![Some(vec!["good"]), Some(vec!["well"])])).collect());
    assert_eq!(glosses[0].1, vec!["good", "well"]);
}

#[test]
fn char_glosses_blank_the_character() {
    let chars = vec![character(
        "好",
        Some("good"),
        Some(vec![
            top("你好", "你好", "hello"),
            top("好人", "好人", "good person"),
            top("爱好", "愛好", "hobby"),
            top("好看", "好看", "pretty"),
        ]),
        None,
    )];
    let glosses = extract_char_glosses_with_top_words(&chars);
    assert_eq!(glosses.len(), 1);
    assert_eq!(glosses[0].0, "好");
    assert_eq!(glosses[0].1, vec!["good", "你_ (hello)", "_人 (good person)", "爱_ (hobby)"]);
}

#[test]
fn char_glosses_fall_back_to_trad_and_variant() {
    let chars = vec![
        character("學", None, Some(vec![top("学生", "學生", "student")]), None),
        character("龢", None, Some(vec![top("和平", "和平", "peace")]), Some("和")),
        character("龢", None, Some(vec![top("x", "和平", "peace")]), Some("和")),
        character("丂", None, Some(vec![top("其他", "其他", "other")]), None),
    ];
    let glosses = extract_char_glosses_with_top_words(&chars);
    assert_eq!(glosses.len(), 3);
    assert_eq!(glosses[0].1, vec!["_生 (student)"]);
    assert_eq!(glosses[1].0, "龢");
    assert_eq!(glosses[1].1, vec!["_平 (peace)"]);
    assert_eq!(glosses[2].1, vec!["_ (other)"]);
}

#[test]
fn char_without_gloss_or_words_is_left_out() {
    let chars = vec![ChineseCharacter { char: "丂".to_string(), gloss: None, statistics: None, variant_of: None }];
    assert!(extract_char_glosses_with_top_words(&chars).is_empty());
}

#[test]
fn level_tallies() {
    let words = vec![
        word("你好", Some(1), vec![]),
        word("謝謝", Some(1), vec![]),
        word("某", Some(10), vec![]),
        word("零", Some(0), vec![]),
        word("大", Some(11), vec![]),
        word("負", Some(-1), vec![]),
        word("無", None, vec![]),
    ];
    let t = tally_word_levels(&words);
    assert_eq!(t.counts, vec![1, 2, 0, 0, 0, 0, 0, 0, 0, 0, 1]);
    assert_eq!(t.with_statistics, 6);
    assert_eq!(t.without_statistics, 1);

    let mut c = character("好", None, None, None);
    c.statistics = Some(CharStatistics { hsk_level: Some(3), top_words: None });
    let mut d = character("丂", None, None, None);
    d.statistics = Some(CharStatistics { hsk_level: None, top_words: None });
    let e = ChineseCharacter { char: "乇".to_string(), gloss: None, statistics: None, variant_of: None };
    let t = tally_char_levels(&vec![c, d, e]);
    assert_eq!(t.counts, vec![0, 0, 0, 1, 0, 0, 0, 0, 0, 0, 0]);
    assert_eq!(t.with_statistics, 2);
    assert_eq!(t.without_statistics, 1);
}
