use rustc_hash::FxHashMap;
use zho_complexity::training::{
    assemble_sentences, build_examples, has_label, label_distribution, level_target,
    load_sentences, make_example, prepare_batch, BEYOND_TOP_LIMIT,
};
use zho_complexity::{FeatureStats, Matcher, Ratio, SentenceFeatures, TrainingExample, WordMatch};

fn word(text: &str, hsk: Option<u32>, top: Option<u32>) -> WordMatch {
    WordMatch {
        text: text.to_string(),
        hsk_level: hsk,
        top_level: top,
        start: 0,
        end: text.len(),
    }
}

fn strings(list: &[&str]) -> Vec<String> {
    list.iter().map(|s| s.to_string()).collect()
}

#[test]
fn sentences_are_the_texts_of_a_list() {
    let text = r#"[{"text": "一"}, {"other": "二"}, {"text": 3}, "四", {"text": "五"}]"#;
    assert_eq!(load_sentences(text).unwrap(), strings(&["一", "五"]));
    assert!(load_sentences(r#"{"text": "一"}"#).unwrap().is_empty());
    assert!(load_sentences("[").is_err());
}

#[test]
fn levels_are_balanced() {
    assert_eq!([1, 2, 3, 4].map(level_target), [600, 600, 400, 400]);
}

#[test]
fn sentences_are_put_together_in_order() {
    let loaded = strings(&["a", "b"]);
    let generated = vec![strings(&["c"]), strings(&[]), strings(&["d", "e"])];
    let phrases = strings(&["f", "g"]);
    assert_eq!(
        assemble_sentences(&loaded, &generated, &phrases),
        strings(&["a", "b", "c", "d", "e", "f", "g"])
    );
    let many: Vec<String> = (0..500).map(|i| format!("{}", i)).collect();
    let all = assemble_sentences(&loaded, &vec![], &many);
    assert_eq!(all.len(), 2 + BEYOND_TOP_LIMIT);
    assert_eq!(all.last().map(|s| s.as_str()), Some("399"));
}

#[test]
fn a_label_of_one_is_a_label() {
    assert!(has_label(&vec![0, 1, 0]));
    assert!(!has_label(&vec![0, 2, 0]));
    assert!(!has_label(&vec![]));
}

#[test]
fn a_valid_example_has_features_and_labels() {
    let matches = vec![word("我", Some(1), Some(1)), word("喜欢", Some(3), Some(1)), word("吃", Some(1), Some(2))];
    let example = make_example(&matches, "我喜欢吃。").unwrap();
    assert_eq!(example.sentence, "我喜欢吃。");
    assert_eq!(example.hsk_labels, vec![0, 0, 1, 1, 1, 1, 1]);
    assert_eq!(example.top_labels, vec![0, 1, 1, 1, 1]);
    assert_eq!(example.features.total_words, 3);
    assert_eq!(example.features.oov_ratio, Ratio { numerator: 0, denominator: 5 });
    assert_eq!(example.features.hsk_mean, Ratio { numerator: 5, denominator: 3 });
}

#[test]
fn two_words_are_needed() {
    assert!(make_example(&vec![word("我喜欢吃", Some(1), Some(1))], "我喜欢吃。").is_none());
}

#[test]
fn the_length_is_bounded() {
    let four = vec![word("我", Some(1), Some(1)), word("喜欢", Some(3), Some(1))];
    assert!(make_example(&four, "我喜欢。").is_none());
    let long = |n: usize| {
        let half = "字".repeat(n / 2);
        let matches = vec![word(&half, Some(1), Some(1)), word(&half, Some(1), Some(1))];
        make_example(&matches, &"字".repeat(n)).is_some()
    };
    assert!(long(200));
    assert!(!long(202));
}

#[test]
fn too_much_out_of_vocabulary_is_refused() {
    let matches = vec![word(&"字".repeat(8), Some(1), Some(1)), word(&"词".repeat(9), Some(1), Some(1))];
    // three of twenty characters are exactly 15%
    let sentence = format!("{}{}abc", "字".repeat(8), "词".repeat(9));
    assert!(make_example(&matches, &sentence).is_some());
    let sentence = format!("{}{}abcd", "字".repeat(8), "词".repeat(9));
    assert!(make_example(&matches, &sentence).is_none());
    // punctuation does not count
    let sentence = format!("{}，{}，，，，！", "字".repeat(8), "词".repeat(9));
    assert!(make_example(&matches, &sentence).is_some());
}

#[test]
fn contradictory_levels_are_refused() {
    let fits = |hsk: u32, top: u32| {
        let matches = vec![word("我们", Some(hsk), Some(top)), word("学习", Some(1), Some(1))];
        make_example(&matches, "我们学习。").is_some()
    };
    assert!(fits(5, 2));
    assert!(!fits(6, 2));
    assert!(fits(6, 3));
    assert!(!fits(7, 3));
    assert!(!fits(7, 4));
    assert!(fits(7, 5));
}

#[test]
fn examples_are_built_from_readings() {
    let mut hsk = FxHashMap::default();
    let mut top = FxHashMap::default();
    for (text, level) in [("我", 1), ("喜欢", 1), ("苹果", 2), ("中国", 1), ("中国人", 2)] {
        hsk.insert(text.to_string(), level);
        top.insert(text.to_string(), level);
    }
    let matcher = Matcher::new(hsk, top).unwrap();
    let sentences = strings(&["我喜欢苹果。", "喜欢", "我喜欢xyz苹果。", "我喜欢中国人！"]);
    let examples = build_examples(&matcher, &sentences);
    assert_eq!(examples.len(), 2);
    assert_eq!(examples[0].sentence, "我喜欢苹果。");
    assert_eq!(examples[0].features.hsk_max, Ratio { numerator: 2, denominator: 1 });
    assert_eq!(examples[1].sentence, "我喜欢中国人！");
    assert_eq!(examples[1].features.avg_word_length, Ratio { numerator: 6, denominator: 3 });
    assert_eq!(examples[1].top_labels, vec![0, 1, 1, 1, 1]);
}

fn example(hsk_max: f32, hsk_labels: &[u32], top_labels: &[u32]) -> TrainingExample<f32> {
    TrainingExample {
        sentence: String::new(),
        features: SentenceFeatures {
            hsk_max,
            hsk_mean: 0.0,
            hsk_count_high: 0,
            hsk_count_low: 0,
            top_max: 0.0,
            top_mean: 0.0,
            top_count_high: 0,
            total_words: 4,
            oov_ratio: 0.0,
            sentence_length: 0,
            rare_char_ratio: 0.0,
            avg_word_length: 0.0,
        },
        hsk_labels: hsk_labels.to_vec(),
        top_labels: top_labels.to_vec(),
    }
}

#[test]
fn labels_are_counted_level_by_level() {
    let examples = vec![
        example(1.0, &[0, 1, 1], &[1, 1]),
        example(2.0, &[0, 0, 1], &[0, 1]),
        example(3.0, &[1, 2], &[0, 0]),
    ];
    assert_eq!(label_distribution(&examples, true, 4), vec![1, 1, 2, 0]);
    assert_eq!(label_distribution(&examples, false, 2), vec![1, 2]);
}

#[test]
fn a_batch_holds_one_row_per_example() {
    let examples = vec![example(1.0, &[0, 1], &[1]), example(3.0, &[1, 1], &[0])];
    let means = vec![1.0f32; 12];
    let stds = vec![2.0f32; 12];
    let stats = FeatureStats::from_columns(&means, &stds);
    let batch = prepare_batch(&examples, &stats, &|c: u32| c as f32, &|v: f32, m: f32, s: f32| (v - m) / s);
    assert_eq!(batch.features.len(), 24);
    assert_eq!(batch.features[0], 0.0);
    assert_eq!(batch.features[1], -0.5);
    assert_eq!(batch.features[7], 1.5);
    assert_eq!(batch.features[12], 1.0);
    assert_eq!(batch.features[19], 1.5);
    assert_eq!(batch.hsk, vec![0, 1, 1, 1]);
    assert_eq!(batch.top, vec![1, 0]);
}

fn small_vocab(reversed: bool) -> (FxHashMap<String, u32>, FxHashMap<String, u32>) {
    let mut words = vec![("我", 1), ("我们", 1), ("们", 2), ("学", 2), ("学习", 1), ("中国", 1), ("中国人", 2), ("国人", 5), ("人", 1)];
    if reversed {
        words.reverse();
    }
    let mut hsk = FxHashMap::default();
    let mut top = FxHashMap::default();
    for (text, level) in words {
        hsk.insert(text.to_string(), level);
        top.insert(text.to_string(), level.min(4));
    }
    (hsk, top)
}

#[test]
fn scoring_is_deterministic() {
    let (hsk, top) = small_vocab(false);
    let a = Matcher::new(hsk, top).unwrap();
    let (hsk, top) = small_vocab(true);
    let b = Matcher::new(hsk, top).unwrap();
    let sentences = strings(&["我们学习。", "中国人学我们！", "我学习中国国人们。"]);
    let first = build_examples(&a, &sentences);
    let second = build_examples(&b, &sentences);
    assert_eq!(first.len(), 3);
    for (x, y) in first.iter().zip(&second) {
        assert_eq!(x.sentence, y.sentence);
        assert_eq!(x.hsk_labels, y.hsk_labels);
        assert_eq!(x.top_labels, y.top_labels);
        assert_eq!(x.features.hsk_mean, y.features.hsk_mean);
        assert_eq!(x.features.oov_ratio, y.features.oov_ratio);
        assert_eq!(x.features.rare_char_ratio, y.features.rare_char_ratio);
        assert_eq!(x.features.avg_word_length, y.features.avg_word_length);
    }
}

#[test]
fn built_examples_are_well_shaped() {
    let (hsk, top) = small_vocab(false);
    let matcher = Matcher::new(hsk, top).unwrap();
    let sentences = strings(&["我们学习。", "人", "中国人学我们！", "我学习中国国人们。"]);
    let examples = build_examples(&matcher, &sentences);
    assert_eq!(examples.len(), 3);
    for example in &examples {
        assert_eq!((example.hsk_labels.len(), example.top_labels.len()), (7, 5));
        assert!(example.hsk_labels.windows(2).all(|w| w[0] <= w[1]));
        assert!(example.top_labels.windows(2).all(|w| w[0] <= w[1]));
        assert_eq!(example.top_labels[4], 1);
        let f = &example.features;
        assert!(f.oov_ratio.numerator <= f.oov_ratio.denominator);
        assert!(f.rare_char_ratio.numerator <= f.rare_char_ratio.denominator);
        assert!(f.hsk_mean.numerator <= f.hsk_max.numerator * f.hsk_mean.denominator);
        assert!(f.avg_word_length.numerator <= f.sentence_length as u128);
    }
    let rows = vec![
        example(1.0, &examples[0].hsk_labels, &examples[0].top_labels),
        example(2.0, &examples[1].hsk_labels, &examples[1].top_labels),
    ];
    let stats = FeatureStats::from_columns(&vec![0.0f32; 12], &vec![1.0f32; 12]);
    let batch = prepare_batch(&rows, &stats, &|c: u32| c as f32, &|v: f32, _: f32, _: f32| v);
    assert_eq!((batch.features.len(), batch.hsk.len(), batch.top.len()), (24, 14, 10));
}
