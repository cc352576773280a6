use zho_complexity::phrases::{
    classify_phrase, extract_phrases, find_class, percent, BkrsEntry, CategoryStats,
    ExtractOptions, PhraseClass,
};
use zho_complexity::text::{
    all_chinese, contains_text, count_chinese, ends_with_text, is_chinese_char,
    is_punctuation_char, starts_with_text,
};

fn entry(sm: &str, tr: Option<&str>, bkrs: &str) -> BkrsEntry {
    BkrsEntry {
        sm: sm.to_string(),
        tr: tr.map(|t| t.to_string()),
        pin: None,
        lat: None,
        bkrs: bkrs.to_string(),
    }
}

fn options(min_length: usize, max_length: usize, max_count: usize, include_traditional: bool) -> ExtractOptions {
    ExtractOptions {
        min_length,
        max_length,
        max_count,
        include_traditional,
    }
}

/// An explanation of the given length that gives no class away.
fn plain(length: usize) -> String {
    "说".repeat(length)
}

#[test]
fn chinese_characters_are_ideographs() {
    for c in ['一', '龥', '\u{4E00}', '\u{9FFF}', '\u{3400}', '\u{4DBF}', '\u{F900}', '\u{FAFF}'] {
        assert!(is_chinese_char(c));
    }
    for c in ['a', '，', '。', '\u{4DC0}', '\u{33FF}', '\u{A000}', '\u{F8FF}', '\u{FB00}', '\u{20000}'] {
        assert!(!is_chinese_char(c));
    }
    assert_eq!(count_chinese("a中，国"), 2);
    assert!(all_chinese("中国"));
    assert!(all_chinese(""));
    assert!(!all_chinese("中国a"));
}

#[test]
fn punctuation_is_no_letter() {
    for c in ['，', '。', '？', '！', '、', '《', '》', '“', '”', '…', '.', ',', '!', '_', '·', '：', '；', '（', '—', '-'] {
        assert!(is_punctuation_char(c));
    }
    for c in ['中', 'a', 'Z', '0', '９', 'Ａ', ' ', '々', '〇', '$', '+', '<', '=', '>', '^', '`', '|', '~', '＄', '＋', '＝', '｜', '～', '\u{2044}'] {
        assert!(!is_punctuation_char(c));
    }
}

#[test]
fn texts_contain_their_parts() {
    assert!(contains_text("后用作比喻", "用作"));
    assert!(contains_text("比喻", "比喻"));
    assert!(contains_text("比喻", ""));
    assert!(!contains_text("比", "比喻"));
    assert!(!contains_text("比如喻", "比喻"));
    assert!(starts_with_text("classical_trad", "classical"));
    assert!(!starts_with_text("class", "classical"));
    assert!(ends_with_text("classical_trad", "_trad"));
    assert!(!ends_with_text("classical", "_trad"));
    assert!(!ends_with_text("trad", "_trad"));
}

#[test]
fn classical_idioms_come_first() {
    let explanation = format!("比喻{}", plain(9));
    assert_eq!(find_class("一二三四", &explanation, 8, 30), Some(PhraseClass::Classical));
    assert_eq!(find_class("x", &format!("形容{}", plain(9)), 8, 30), Some(PhraseClass::Classical));
    assert_eq!(find_class("x", &format!("{}用作", plain(9)), 8, 30), Some(PhraseClass::Classical));
    // ten characters do not explain enough
    assert_eq!(find_class("一二三四", &format!("比喻{}", plain(8)), 8, 30), None);
    assert_eq!(find_class("x", &format!("指{}", plain(10)), 8, 30), Some(PhraseClass::Classical));
    assert_eq!(find_class("x", &format!("指{}", plain(9)), 8, 30), None);
}

#[test]
fn four_characters_are_a_chengyu() {
    assert_eq!(find_class("一二三四", &plain(16), 8, 30), Some(PhraseClass::Chengyu));
    assert_eq!(find_class("一二三四", &plain(15), 8, 30), None);
    assert_eq!(find_class("一二三a", &plain(16), 8, 30), None);
    assert_eq!(find_class("一二三四五", &plain(16), 8, 30), None);
}

#[test]
fn a_comma_makes_a_literary_saying() {
    assert_eq!(find_class("一二三，四五六七", &plain(11), 8, 30), Some(PhraseClass::Literary));
    assert_eq!(find_class("一二三，四五六七", &plain(10), 8, 30), None);
    assert_eq!(find_class("一二三，四五六", &plain(11), 8, 30), None);
    assert_eq!(find_class("一二三,四五六七", &plain(11), 8, 30), None);
    let long = format!("，{}", "字".repeat(24));
    assert_eq!(find_class(&long, &plain(11), 8, 30), Some(PhraseClass::Literary));
    let longer = format!("，{}", "字".repeat(25));
    assert_eq!(find_class(&longer, &plain(11), 8, 30), None);
}

#[test]
fn long_explanations_make_complex_phrases() {
    assert_eq!(find_class("一二三四五六七八", &plain(21), 8, 30), Some(PhraseClass::Complex));
    assert_eq!(find_class("一二三四五六七八", &plain(20), 8, 30), None);
    assert_eq!(find_class("一二三四五六七", &plain(21), 8, 30), None);
    assert_eq!(find_class("一二三四五六七八", &plain(21), 8, 7), None);
    // more than seven in ten characters
    assert_eq!(find_class("一二三四五六七abc", &plain(21), 8, 30), None);
    assert_eq!(find_class("一二三四五六七八ab", &plain(21), 8, 30), Some(PhraseClass::Complex));
    assert_eq!(find_class("", &plain(21), 0, 30), None);
}

#[test]
fn a_classified_phrase_keeps_its_texts() {
    let explanation = plain(21);
    let (name, phrase) = classify_phrase(
        &entry("一二三四五六七八", Some("壹"), &explanation),
        &options(8, 30, 10, true),
    )
    .unwrap();
    assert_eq!(name, "complex");
    assert_eq!(phrase.text, "一二三四五六七八");
    assert_eq!(phrase.text_traditional.as_deref(), Some("壹"));
    assert_eq!(phrase.explanation, explanation);
    assert_eq!(phrase.category, "complex_phrase");
    assert!(classify_phrase(&entry("一", None, "二"), &options(1, 30, 10, true)).is_none());
}

#[test]
fn a_variant_is_kept_only_if_it_is_different() {
    let (name, phrase) = classify_phrase(
        &entry("一心一意", Some("一心一意"), "形容做事专心，没有别的念头"),
        &options(8, 30, 10, true),
    )
    .unwrap();
    assert_eq!(name, "classical");
    assert_eq!(phrase.text_traditional, None);
    let (name, phrase) = classify_phrase(
        &entry("画蛇添足", None, "指做了多余的事反而不恰当"),
        &options(8, 30, 10, true),
    )
    .unwrap();
    assert_eq!(name, "classical");
    assert_eq!(phrase.category, "classical_idiom");
    assert_eq!(phrase.text_traditional, None);
}

#[test]
fn classes_have_names_and_categories() {
    assert_eq!((PhraseClass::Classical.name(), PhraseClass::Classical.category()), ("classical", "classical_idiom"));
    assert_eq!((PhraseClass::Chengyu.name(), PhraseClass::Chengyu.category()), ("chengyu", "chengyu"));
    assert_eq!((PhraseClass::Literary.name(), PhraseClass::Literary.category()), ("literary", "literary_saying"));
    assert_eq!((PhraseClass::Complex.name(), PhraseClass::Complex.category()), ("complex", "complex_phrase"));
}

#[test]
fn categories_are_counted_by_how_they_begin_and_end() {
    let mut stats = CategoryStats::default();
    for category in ["classical", "classical_trad", "literary_saying", "chengyu_trad", "complex", "complex", "other", "other_trad"] {
        stats.increment(category);
    }
    assert_eq!(
        stats,
        CategoryStats {
            classical: 2,
            literary: 1,
            chengyu: 1,
            complex: 2,
            traditional_count: 3,
        }
    );
}

#[test]
fn extraction_adds_variants_and_counts() {
    let entries = vec![
        entry("太短", None, &plain(30)),
        entry("一二三，四五六七", Some("壹贰叁，肆伍陆柒"), &plain(12)),
        entry("一二三四五六七八", Some("一二三四五六七八"), &plain(21)),
        entry("一二三四五六七八ab", None, &format!("比喻{}", plain(9))),
        entry("一二三四五六七abc", None, &format!("比喻{}", plain(9))),
        entry("没有类别没有类别", None, "短"),
    ];
    let all = extract_phrases(&entries, &options(8, 30, 100, true));
    let seen: Vec<(&str, &str)> = all.phrases.iter().map(|p| (p.text.as_str(), p.category.as_str())).collect();
    assert_eq!(
        seen,
        vec![
            ("一二三，四五六七", "literary_saying"),
            ("壹贰叁，肆伍陆柒", "literary_trad"),
            ("一二三四五六七八", "complex_phrase"),
            ("一二三四五六七八ab", "classical_idiom"),
        ]
    );
    assert_eq!(all.phrases[0].text_traditional.as_deref(), Some("壹贰叁，肆伍陆柒"));
    assert!(all.phrases[1].text_traditional.is_none());
    assert_eq!(all.phrases[1].explanation, plain(12));
    assert_eq!(
        all.stats,
        CategoryStats {
            classical: 1,
            literary: 2,
            chengyu: 0,
            complex: 1,
            traditional_count: 1,
        }
    );
    let simplified = extract_phrases(&entries, &options(8, 30, 100, false));
    assert_eq!(simplified.phrases.len(), 3);
    assert_eq!(simplified.stats.traditional_count, 0);
}

#[test]
fn eight_in_ten_characters_must_be_chinese() {
    let explanation = format!("比喻{}", plain(9));
    let entries = vec![entry("一二三四五六七八ab", None, &explanation), entry("一二三四五六七八abc", None, &explanation)];
    let found = extract_phrases(&entries, &options(8, 30, 100, true));
    assert_eq!(found.phrases.len(), 1);
    assert_eq!(found.phrases[0].text, "一二三四五六七八ab");
}

#[test]
fn no_more_than_the_maximum_is_extracted() {
    let entries: Vec<BkrsEntry> = (0..5).map(|_| entry("一二三四五六七八", Some("壹"), &plain(21))).collect();
    for max_count in 0..12 {
        let found = extract_phrases(&entries, &options(8, 30, max_count, true));
        assert_eq!(found.phrases.len(), max_count.min(10));
        assert_eq!(found.stats.complex, found.phrases.len());
        let found = extract_phrases(&entries, &options(8, 30, max_count, false));
        assert_eq!(found.phrases.len(), max_count.min(5));
    }
}

#[test]
fn percentages_are_rounded_down() {
    assert_eq!(percent(2, 3), 66);
    assert_eq!(percent(3, 3), 100);
    assert_eq!(percent(0, 0), 0);
    assert_eq!(percent(2, 0), 200);
}
