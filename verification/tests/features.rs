use zho_complexity::features::{
    compute_coverage, compute_hsk_labels, compute_labels, compute_level_stats, compute_top_labels,
    count_within, enforce_monotonic, estimate_rare_char_ratio, extract_features,
};
use zho_complexity::{Ratio, WordMatch};

fn make_match(text: &str, hsk: Option<u32>, top: Option<u32>) -> WordMatch {
    WordMatch {
        text: text.to_string(),
        hsk_level: hsk,
        top_level: top,
        start: 0,
        end: text.len(),
    }
}

fn value(r: Ratio) -> f32 {
    r.numerator as f32 / r.denominator as f32
}

fn ratio(numerator: u128, denominator: u128) -> Ratio {
    Ratio {
        numerator,
        denominator,
    }
}

#[test]
fn test_compute_coverage() {
    let matches = vec![
        make_match("我", Some(1), Some(1)),
        make_match("喜欢", Some(3), Some(1)),
        make_match("吃", Some(1), Some(1)),
        make_match("甜", Some(3), Some(2)),
        make_match("苹果", Some(2), Some(1)),
        make_match("和", Some(2), Some(1)),
        make_match("新鲜", Some(3), Some(2)),
        make_match("葡萄", Some(3), Some(1)),
    ];

    // HSK Level 1: only "我", "吃" = 2/8 = 25%
    assert!((value(compute_coverage(&matches, 1, true)) - 0.25).abs() < 0.01);

    // HSK Level 3: all 8 words = 8/8 = 100%
    assert!((value(compute_coverage(&matches, 3, true)) - 1.0).abs() < 0.01);

    // TOP Level 1: 6 words = 6/8 = 75%
    assert!((value(compute_coverage(&matches, 1, false)) - 0.75).abs() < 0.01);
}

#[test]
fn test_compute_labels() {
    let matches = vec![
        make_match("我", Some(1), Some(1)),
        make_match("喜欢", Some(3), Some(1)),
        make_match("吃", Some(1), Some(1)),
        make_match("苹果", Some(2), Some(1)),
    ];

    let (hsk_labels, top_labels) = compute_labels(&matches);

    // HSK: L1 25%, L2 75%, L3+ 100% (now 7 levels including L7 for OOV)
    assert_eq!(hsk_labels, vec![0, 0, 1, 1, 1, 1, 1]);

    // TOP: L1 100% (all TOP level 1, now 5 levels: 1-4 + 5 for beyond-TOP)
    assert_eq!(top_labels, vec![1, 1, 1, 1, 1]);
}

#[test]
fn test_extract_features() {
    let matches = vec![
        make_match("我", Some(1), Some(1)),
        make_match("喜欢", Some(3), Some(1)),
        make_match("吃", Some(1), Some(1)),
        make_match("甜", Some(3), Some(2)),
    ];

    let feat = extract_features(&matches, "我喜欢吃甜。");

    assert_eq!(value(feat.hsk_max), 3.0);
    assert!((value(feat.hsk_mean) - 2.0).abs() < 0.01);
    assert_eq!(feat.hsk_count_high, 0); // no levels 5-6
    assert_eq!(feat.hsk_count_low, 2); // "我", "吃"
    assert_eq!(feat.total_words, 4);
    assert_eq!(value(feat.oov_ratio), 0.0);
}

#[test]
fn features_without_matches() {
    let feat = extract_features(&[], "你好。");
    assert_eq!(feat.hsk_max, ratio(0, 1));
    assert_eq!(feat.hsk_mean, ratio(0, 1));
    assert_eq!(feat.top_max, ratio(0, 1));
    assert_eq!(feat.top_mean, ratio(0, 1));
    assert_eq!(feat.hsk_count_high, 0);
    assert_eq!(feat.hsk_count_low, 0);
    assert_eq!(feat.top_count_high, 0);
    assert_eq!(feat.total_words, 0);
    assert_eq!(feat.oov_ratio, ratio(1, 1));
    assert_eq!(feat.sentence_length, 3);
    assert_eq!(feat.rare_char_ratio, ratio(0, 1));
    assert_eq!(feat.avg_word_length, ratio(0, 1));
}

#[test]
fn features_are_exact() {
    let matches = vec![
        make_match("我", Some(1), None),
        make_match("经济", Some(5), Some(4)),
        make_match("发展", Some(6), Some(2)),
        make_match("吗", None, Some(1)),
    ];
    let feat = extract_features(&matches, "我xy经济发展吗？");
    assert_eq!(feat.hsk_max, ratio(6, 1));
    assert_eq!(feat.hsk_mean, ratio(12, 3));
    assert_eq!(feat.hsk_count_high, 2);
    assert_eq!(feat.hsk_count_low, 1);
    assert_eq!(feat.top_max, ratio(4, 1));
    assert_eq!(feat.top_mean, ratio(7, 3));
    assert_eq!(feat.top_count_high, 1);
    assert_eq!(feat.total_words, 4);
    // "x" and "y" are out of vocabulary, the question mark is not
    assert_eq!(feat.oov_ratio, ratio(2, 9));
    assert_eq!(feat.sentence_length, 9);
    assert_eq!(feat.rare_char_ratio, ratio(4, 6));
    assert_eq!(feat.avg_word_length, ratio(6, 4));
}

#[test]
fn more_matched_than_written_is_no_oov() {
    let matches = vec![make_match("中国人", Some(1), Some(1)), make_match("国人", Some(2), None)];
    let feat = extract_features(&matches, "中国人");
    assert_eq!(feat.oov_ratio, ratio(0, 3));
    let feat = extract_features(&matches, "");
    assert_eq!(feat.oov_ratio, ratio(0, 1));
}

#[test]
fn level_stats_are_exact() {
    assert_eq!(compute_level_stats(&vec![], 5, 2), (0, ratio(0, 1), 0, 0));
    assert_eq!(
        compute_level_stats(&vec![2, 7, 5, 1, 4], 5, 2),
        (7, ratio(19, 5), 2, 2)
    );
}

#[test]
fn rare_characters_are_those_of_hard_words() {
    let easy = vec![make_match("我", Some(4), Some(3))];
    assert_eq!(estimate_rare_char_ratio(&easy), ratio(0, 1));
    let hard = vec![make_match("我", Some(5), None), make_match("你好", None, Some(4)), make_match("他", None, None)];
    assert_eq!(estimate_rare_char_ratio(&hard), ratio(3, 4));
    let empty = vec![make_match("", Some(5), None)];
    assert_eq!(estimate_rare_char_ratio(&empty), ratio(0, 1));
}

#[test]
fn coverage_without_matches_is_nothing() {
    assert_eq!(compute_coverage(&[], 3, true), ratio(0, 1));
    assert_eq!(compute_coverage(&[make_match("他", None, Some(2))], 6, true), ratio(0, 1));
    assert_eq!(compute_coverage(&[make_match("他", None, Some(2))], 2, false), ratio(1, 1));
}

#[test]
fn coverage_grows_with_the_level() {
    let matches = vec![
        make_match("a", Some(1), None),
        make_match("b", Some(4), None),
        make_match("c", Some(2), None),
        make_match("d", None, None),
    ];
    let mut last = 0;
    for level in 0..8 {
        let coverage = compute_coverage(&matches, level, true);
        assert!(coverage.numerator >= last);
        assert!(coverage.numerator <= coverage.denominator);
        last = coverage.numerator;
    }
    assert_eq!(last, 3);
}

#[test]
fn ninety_percent_is_enough_and_less_is_not() {
    let mut matches: Vec<WordMatch> = (0..9).map(|_| make_match("我", Some(2), None)).collect();
    matches.push(make_match("难", Some(6), None));
    assert_eq!(compute_hsk_labels(&matches), vec![0, 1, 1, 1, 1, 1, 1]);
    matches.push(make_match("难", Some(6), None));
    assert_eq!(compute_hsk_labels(&matches), vec![0, 0, 0, 0, 0, 1, 1]);
    matches.push(make_match("生", None, None));
    matches.push(make_match("生", None, None));
    assert_eq!(compute_hsk_labels(&matches), vec![0, 0, 0, 0, 0, 0, 0]);
    assert_eq!(compute_hsk_labels(&[]), vec![0, 0, 0, 0, 0, 0, 0]);
}

#[test]
fn top_labels_begin_at_the_hardest_word() {
    let at = |levels: &[Option<u32>]| {
        let matches: Vec<WordMatch> = levels.iter().map(|l| make_match("字", None, *l)).collect();
        compute_top_labels(&matches)
    };
    assert_eq!(at(&[Some(1)]), vec![1, 1, 1, 1, 1]);
    assert_eq!(at(&[Some(1), Some(3), None]), vec![0, 0, 1, 1, 1]);
    assert_eq!(at(&[Some(4)]), vec![0, 0, 0, 1, 1]);
    assert_eq!(at(&[Some(9)]), vec![0, 0, 0, 1, 1]);
    assert_eq!(at(&[Some(0)]), vec![1, 1, 1, 1, 1]);
    assert_eq!(at(&[None]), vec![0, 0, 0, 0, 1]);
    assert_eq!(at(&[]), vec![0, 0, 0, 0, 1]);
}

#[test]
fn monotonic_closure_fills_behind_the_first_one() {
    let closed = |labels: &[u32]| {
        let mut list = labels.to_vec();
        enforce_monotonic(&mut list);
        list
    };
    assert_eq!(closed(&[0, 1, 0, 0]), vec![0, 1, 1, 1]);
    assert_eq!(closed(&[0, 0]), vec![0, 0]);
    assert_eq!(closed(&[]), Vec::<u32>::new());
    assert_eq!(closed(&[5, 1, 7]), vec![5, 1, 1]);
    assert_eq!(closed(&closed(&[0, 1, 0])), closed(&[0, 1, 0]));
}

#[test]
fn counts_on_the_scales() {
    let hsk: Vec<u32> = vec![1, 2, 3, 4, 5, 6];
    let stats = compute_level_stats(&hsk, 5, 2);
    assert_eq!((stats.2, stats.3), (2, 2));
    let top: Vec<u32> = vec![1, 2, 3, 4, 4];
    assert_eq!(compute_level_stats(&top, 4, 1).2, 2);
}

#[test]
fn levels_off_the_scales_are_neither_high_nor_low() {
    let feat = extract_features(&[make_match("龘", Some(7), None)], "龘");
    assert_eq!(feat.hsk_count_high, 0);
    assert_eq!(feat.hsk_max, ratio(7, 1));
    let matches: Vec<WordMatch> = (0..9).map(|l| make_match("字", Some(l), Some(l))).collect();
    let feat = extract_features(&matches, "字");
    assert_eq!(feat.hsk_count_high, 2); // 5, 6
    assert_eq!(feat.hsk_count_low, 2); // 1, 2
    assert_eq!(feat.top_count_high, 1); // 4
    assert_eq!(count_within(&vec![0, 3, 4, 5, 6], 3, 5), 3);
    assert_eq!(count_within(&vec![4], 5, 3), 0);
}

#[test]
fn all_characters_of_the_matches_count_against_oov() {
    let feat = extract_features(&[make_match("。", Some(1), None)], "你");
    assert_eq!(feat.oov_ratio, ratio(0, 1));
    let feat = extract_features(&[make_match("你好", Some(1), None)], "你好世界人");
    assert_eq!(feat.oov_ratio, ratio(3, 5));
    let feat = extract_features(&[make_match("你好", Some(1), None)], "，你好！？");
    assert_eq!(feat.oov_ratio, ratio(0, 5));
}

#[test]
fn closure_is_idempotent_on_any_labels() {
    for labels in [vec![3, 1, 4, 1], vec![2, 0, 7], vec![1, 5], vec![0, 9, 1, 2]] {
        let mut once = labels.clone();
        enforce_monotonic(&mut once);
        let mut twice = once.clone();
        enforce_monotonic(&mut twice);
        assert_eq!(once, twice);
    }
}

#[test]
fn symbols_are_out_of_vocabulary() {
    let feat = extract_features(&[make_match("我", Some(1), Some(1))], "我+");
    assert_eq!(feat.oov_ratio, ratio(1, 2));
    let feat = extract_features(&[make_match("我", Some(1), Some(1))], "我。");
    assert_eq!(feat.oov_ratio, ratio(0, 2));
}

#[test]
fn harder_words_never_help() {
    let easy = vec![make_match("a", Some(1), Some(1)), make_match("b", Some(2), None)];
    let hard = vec![make_match("a", Some(4), Some(3)), make_match("b", None, None)];
    let (easy_hsk, easy_top) = compute_labels(&easy);
    let (hard_hsk, hard_top) = compute_labels(&hard);
    assert!(hard_hsk.iter().zip(&easy_hsk).all(|(h, e)| h <= e));
    assert!(hard_top.iter().zip(&easy_top).all(|(h, e)| h <= e));
    assert_eq!((easy_hsk, easy_top), (vec![0, 1, 1, 1, 1, 1, 1], vec![1, 1, 1, 1, 1]));
    assert_eq!((hard_hsk, hard_top), (vec![0, 0, 0, 0, 0, 0, 0], vec![0, 0, 1, 1, 1]));
}

#[test]
fn labels_depend_on_the_levels_alone() {
    let a = vec![make_match("一", Some(1), Some(2)), make_match("二", Some(3), None), make_match("三", None, Some(1))];
    let b = vec![make_match("x", None, Some(1)), make_match("y", Some(1), Some(2)), make_match("zz", Some(3), None)];
    assert_eq!(compute_labels(&a), compute_labels(&b));
}
