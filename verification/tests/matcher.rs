use rustc_hash::FxHashMap;
use zho_complexity::matcher::choose_non_overlapping;
use zho_complexity::{Matcher, WordMatch};

fn make_vocab() -> (FxHashMap<String, u32>, FxHashMap<String, u32>) {
    let mut hsk = FxHashMap::default();
    hsk.insert("我".to_string(), 1);
    hsk.insert("喜欢".to_string(), 3);
    hsk.insert("吃".to_string(), 1);
    hsk.insert("苹果".to_string(), 2);
    hsk.insert("和".to_string(), 2);

    let mut top = FxHashMap::default();
    top.insert("我".to_string(), 1);
    top.insert("喜欢".to_string(), 1);
    top.insert("吃".to_string(), 1);
    top.insert("苹果".to_string(), 1);
    top.insert("和".to_string(), 1);

    (hsk, top)
}

fn vocab(words: &[(&str, u32)]) -> FxHashMap<String, u32> {
    let mut map = FxHashMap::default();
    for (word, level) in words {
        map.insert(word.to_string(), *level);
    }
    map
}

fn places(matches: &[WordMatch]) -> Vec<(String, usize, usize)> {
    matches
        .iter()
        .map(|m| (m.text.clone(), m.start, m.end))
        .collect()
}

fn place(text: &str, start: usize, end: usize) -> (String, usize, usize) {
    (text.to_string(), start, end)
}

#[test]
fn test_matcher_creation() {
    let (hsk, top) = make_vocab();
    let matcher = Matcher::new(hsk, top).unwrap();
    let (hsk_size, top_size) = matcher.vocab_sizes();
    assert!(hsk_size > 0);
    assert!(top_size > 0);
}

#[test]
fn test_find_matches() {
    let (hsk, top) = make_vocab();
    let matcher = Matcher::new(hsk, top).unwrap();

    let sentence = "我喜欢吃苹果。";
    let matches = matcher.find_matches(sentence);

    assert!(!matches.is_empty());
    // Should find: 我, 喜欢, 吃, 苹果
    assert!(matches
        .iter()
        .any(|m| m.text == "我" && m.hsk_level == Some(1)));
    assert!(matches
        .iter()
        .any(|m| m.text == "喜欢" && m.hsk_level == Some(3)));
}

#[test]
fn test_non_overlapping_greedy() {
    let (hsk, top) = make_vocab();
    let matcher = Matcher::new(hsk, top).unwrap();

    let sentence = "我喜欢吃苹果。";
    let non_overlapping = matcher.find_non_overlapping(sentence);

    // All matches should be disjoint
    for i in 0..non_overlapping.len() {
        for j in (i + 1)..non_overlapping.len() {
            let mat_i = &non_overlapping[i];
            let mat_j = &non_overlapping[j];
            // mat_i should end before mat_j starts or vice versa
            assert!(mat_i.end <= mat_j.start || mat_j.end <= mat_i.start);
        }
    }
}

#[test]
fn test_byte_offsets_correct() {
    let (hsk, top) = make_vocab();
    let matcher = Matcher::new(hsk, top).unwrap();

    let sentence = "我喜欢吃苹果。";
    let matches = matcher.find_matches(sentence);

    for mat in matches {
        let extracted = &sentence[mat.start..mat.end];
        assert_eq!(extracted, mat.text);
    }
}

#[test]
fn vocab_sizes_are_exact() {
    let matcher = Matcher::new(vocab(&[("我", 1), ("你", 1)]), vocab(&[("他", 2)])).unwrap();
    assert_eq!(matcher.vocab_sizes(), (2, 1));
}

#[test]
fn all_four_words_are_found_in_order() {
    let (hsk, top) = make_vocab();
    let matcher = Matcher::new(hsk, top).unwrap();
    assert_eq!(
        places(&matcher.find_matches("我喜欢吃苹果。")),
        vec![
            place("我", 0, 3),
            place("喜欢", 3, 9),
            place("吃", 9, 12),
            place("苹果", 12, 18),
        ]
    );
}

#[test]
fn overlapping_matches_are_all_found() {
    let hsk = vocab(&[("中", 1), ("中国", 1), ("国", 2)]);
    let top = vocab(&[("中国人", 2), ("国人", 3)]);
    let matcher = Matcher::new(hsk, top).unwrap();
    assert_eq!(
        places(&matcher.find_matches("中国人")),
        vec![
            place("中", 0, 3),
            place("中国", 0, 6),
            place("国", 3, 6),
            place("中国人", 0, 9),
            place("国人", 3, 9),
        ]
    );
}

#[test]
fn levels_come_from_each_vocabulary() {
    let matcher = Matcher::new(vocab(&[("中", 1), ("国", 4)]), vocab(&[("国", 3), ("人", 2)])).unwrap();
    let matches = matcher.find_matches("中国人");
    assert_eq!(matches.len(), 3);
    assert_eq!((matches[0].hsk_level, matches[0].top_level), (Some(1), None));
    assert_eq!((matches[1].hsk_level, matches[1].top_level), (Some(4), Some(3)));
    assert_eq!((matches[2].hsk_level, matches[2].top_level), (None, Some(2)));
}

#[test]
fn longer_matches_come_first() {
    let hsk = vocab(&[("中", 1), ("中国", 1), ("中国人", 2), ("人", 1), ("人民", 3)]);
    let matcher = Matcher::new(hsk, vocab(&[])).unwrap();
    assert_eq!(
        places(&matcher.find_non_overlapping("中国人民中国")),
        vec![place("中国人", 0, 9), place("中国", 12, 18)]
    );
}

#[test]
fn a_later_longer_match_does_not_displace_an_earlier_one() {
    let matcher = Matcher::new(vocab(&[("ab", 1), ("bcd", 1), ("d", 1)]), vocab(&[])).unwrap();
    assert_eq!(
        places(&matcher.find_non_overlapping("abcd")),
        vec![place("ab", 0, 2), place("d", 3, 4)]
    );
}

#[test]
fn a_match_that_begins_earlier_displaces_what_it_covers() {
    let matcher = Matcher::new(vocab(&[("b", 1), ("c", 1), ("abc", 1)]), vocab(&[])).unwrap();
    assert_eq!(
        places(&matcher.find_non_overlapping("abcb")),
        vec![place("abc", 0, 3), place("b", 3, 4)]
    );
}

#[test]
fn an_empty_word_stands_everywhere() {
    let matcher = Matcher::new(vocab(&[("", 1), ("ab", 2)]), vocab(&[])).unwrap();
    assert_eq!(
        places(&matcher.find_matches("ab")),
        vec![place("", 0, 0), place("", 1, 1), place("ab", 0, 2), place("", 2, 2)]
    );
    assert_eq!(
        places(&matcher.find_non_overlapping("ab")),
        vec![place("ab", 0, 2), place("", 2, 2)]
    );
}

#[test]
fn an_empty_word_stands_between_characters_only() {
    let matcher = Matcher::new(vocab(&[("", 1), ("国", 2)]), vocab(&[])).unwrap();
    let sentence = "中国a";
    let matches = matcher.find_matches(sentence);
    assert_eq!(
        places(&matches),
        vec![
            place("", 0, 0),
            place("", 3, 3),
            place("国", 3, 6),
            place("", 6, 6),
            place("", 7, 7),
        ]
    );
    for m in &matches {
        assert_eq!(&sentence[m.start..m.end], m.text);
    }
    assert_eq!(
        places(&matcher.find_non_overlapping(sentence)),
        vec![place("", 0, 0), place("国", 3, 6), place("", 6, 6), place("", 7, 7)]
    );
}

#[test]
fn nothing_is_found_without_words() {
    let matcher = Matcher::new(vocab(&[]), vocab(&[])).unwrap();
    assert!(matcher.find_matches("我喜欢").is_empty());
    assert!(matcher.find_non_overlapping("我喜欢").is_empty());
    let (hsk, top) = make_vocab();
    let matcher = Matcher::new(hsk, top).unwrap();
    assert!(matcher.find_matches("").is_empty());
}

#[test]
fn matching_is_deterministic() {
    let words = [("中", 1), ("中国", 1), ("国", 2), ("国人", 3), ("人", 1)];
    let mut backwards = words;
    backwards.reverse();
    let a = Matcher::new(vocab(&words), vocab(&[])).unwrap();
    let b = Matcher::new(vocab(&backwards), vocab(&[])).unwrap();
    let sentence = "中国人人国中";
    assert_eq!(places(&a.find_matches(sentence)), places(&b.find_matches(sentence)));
    assert_eq!(
        places(&a.find_non_overlapping(sentence)),
        places(&b.find_non_overlapping(sentence))
    );
}

#[test]
fn greedy_choice_from_a_list() {
    let m = |text: &str, start: usize, end: usize| WordMatch {
        text: text.to_string(),
        hsk_level: None,
        top_level: Some(1),
        start,
        end,
    };
    let all = vec![m("a", 0, 1), m("ab", 0, 2), m("b", 1, 2), m("bc", 1, 3), m("c", 2, 3)];
    assert_eq!(
        places(&choose_non_overlapping(&all)),
        vec![place("ab", 0, 2), place("c", 2, 3)]
    );
}
