use rustc_hash::FxHashMap;
use zho_complexity::chance::{Pick, Roll, Toss};
use zho_complexity::generate::{
    compose_sentence, generate_from_pool, generate_level_targeted_sentences, keep_sentences,
    length_bounds, odds_of, particle_list, pool_from_list, word_source, Attempt, Coin,
};

fn strings(list: &[&str]) -> Vec<String> {
    list.iter().map(|s| s.to_string()).collect()
}

fn vocab(words: &[(&str, u32)]) -> FxHashMap<String, u32> {
    let mut map = FxHashMap::default();
    for (word, level) in words {
        map.insert(word.to_string(), *level);
    }
    map
}

/// Whether a text can be cut into words of a list.
fn is_made_of(text: &str, words: &[String]) -> bool {
    text.is_empty()
        || words
            .iter()
            .any(|w| !w.is_empty() && text.starts_with(w.as_str()) && is_made_of(&text[w.len()..], words))
}

#[test]
fn the_pool_is_pure_and_complete() {
    let top = vocab(&[("a", 1), ("b", 2), ("c", 2), ("d", 2), ("e", 3), ("f", 0)]);
    let hsk = vocab(&[("a", 1), ("b", 3), ("c", 2), ("d", 1), ("e", 1), ("f", 1), ("x", 1)]);
    let listed = strings(&["e", "d", "c", "b", "a", "f"]);
    assert_eq!(pool_from_list(&listed, &top, &hsk, 2, 2), strings(&["d", "c"]));
    assert_eq!(pool_from_list(&listed, &top, &hsk, 1, 3), strings(&["a", "d", "c", "b", "e"]));
    assert_eq!(pool_from_list(&listed, &top, &hsk, 0, 1), strings(&["f", "a"]));
    assert!(pool_from_list(&listed, &top, &hsk, 3, 2).is_empty());
    assert!(pool_from_list(&listed, &top, &vocab(&[]), 0, 9).is_empty());
}

#[test]
fn sentences_are_joined_and_marked() {
    let words = strings(&["我", "喜欢", "吃"]);
    assert_eq!(compose_sentence(&words, false, false).as_deref(), Some("我喜欢吃。"));
    assert_eq!(compose_sentence(&words, true, false).as_deref(), Some("我喜欢吃？"));
    assert_eq!(compose_sentence(&words, true, true).as_deref(), Some("我喜欢吃？"));
    assert_eq!(compose_sentence(&words, false, true).as_deref(), Some("我喜欢吃！"));
}

#[test]
fn sentences_have_a_reasonable_length() {
    assert!(compose_sentence(&strings(&["我喜欢", "吃"]), false, false).is_none());
    assert!(compose_sentence(&strings(&["我", "你", "他"]), false, false).is_none());
    assert!(compose_sentence(&strings(&["我", "你", "他", "她"]), false, false).is_some());
    let long = "字".repeat(77);
    assert!(compose_sentence(&strings(&["我", "你", &long]), false, false).is_some());
    assert!(compose_sentence(&strings(&["我", "你", "他", &long]), false, false).is_none());
}

#[test]
fn there_are_particles() {
    let particles = particle_list();
    assert_eq!(particles.len(), 23);
    assert_eq!(particles[0], "的");
    assert_eq!(particles[22], "怎么");
}

#[test]
fn generated_sentences_come_from_the_pool_and_the_particles() {
    let pool = strings(&["苹果", "学习"]);
    let mut words = particle_list();
    words.extend(pool.iter().cloned());
    for max_level in [1, 2, 3, 4] {
        let made = generate_from_pool(50, &pool, max_level);
        assert!(made.sentences.len() <= 50);
        assert!(made.sentences.len() <= made.attempts);
        assert!(made.sentences.len() == 50 || made.attempts == 2500);
        assert!(!made.sentences.is_empty());
        for sentence in &made.sentences {
            let count = sentence.chars().count();
            assert!((5..=80).contains(&count));
            let mark = sentence.chars().last().unwrap();
            assert!(['。', '？', '！'].contains(&mark));
            let body = &sentence[..sentence.len() - mark.len_utf8()];
            assert!(is_made_of(body, &words));
            if max_level > 2 {
                assert!(count >= 6);
            }
        }
        assert!(made.sentences.iter().any(|s| s.contains("苹果") || s.contains("学习")));
    }
}

#[test]
fn nothing_is_generated_beyond_the_dictionary() {
    let pool = strings(&["苹果"]);
    let made = generate_from_pool(5, &pool, 5);
    assert!(made.sentences.is_empty());
    assert_eq!(made.attempts, 0);
    let made = generate_from_pool(5, &Vec::new(), 1);
    assert!(made.sentences.is_empty());
    assert_eq!(made.attempts, 0);
    let made = generate_from_pool(0, &pool, 1);
    assert!(made.sentences.is_empty());
    assert_eq!(made.attempts, 0);
}

#[test]
fn sentences_of_a_level_use_its_words_only() {
    let top = vocab(&[("苹果", 1), ("经济", 1), ("学习", 2), ("世界", 1)]);
    let hsk = vocab(&[("苹果", 1), ("经济", 4), ("学习", 1)]);
    let made = generate_level_targeted_sentences(40, &top, &hsk, 1, 1);
    assert!(!made.sentences.is_empty());
    let mut words = particle_list();
    words.push("苹果".to_string());
    for sentence in &made.sentences {
        let mark = sentence.chars().last().unwrap();
        assert!(is_made_of(&sentence[..sentence.len() - mark.len_utf8()], &words));
    }
    let none = generate_level_targeted_sentences(40, &top, &hsk, 4, 4);
    assert!(none.sentences.is_empty());
    assert_eq!(none.attempts, 0);
    let beyond = generate_level_targeted_sentences(40, &top, &hsk, 1, 5);
    assert!(beyond.sentences.is_empty());
    assert_eq!(beyond.attempts, 0);
}

#[test]
fn words_that_make_no_sentence_use_up_the_attempts() {
    let pool = vec!["字".repeat(100)];
    let made = generate_from_pool(2000, &pool, 4);
    assert!(made.sentences.len() < 2000);
    assert_eq!(made.attempts, 100_000);
}

#[test]
fn no_attempt_fails_at_the_higher_levels() {
    let pool = strings(&["一", "二三四五六七八九"]);
    for max_level in [3, 4] {
        let made = generate_from_pool(200, &pool, max_level);
        assert_eq!(made.sentences.len(), 200);
        assert_eq!(made.attempts, 200);
    }
    let top = vocab(&[("学习", 3)]);
    let hsk = vocab(&[("学习", 3)]);
    let made = generate_level_targeted_sentences(200, &top, &hsk, 3, 3);
    assert_eq!((made.sentences.len(), made.attempts), (200, 200));
}

#[test]
fn above_the_dictionary_any_count_is_accepted() {
    let top = vocab(&[("学习", 3)]);
    let made = generate_level_targeted_sentences(usize::MAX, &top, &top, 1, 5);
    assert!(made.sentences.is_empty());
    assert_eq!(made.attempts, 0);
    let made = generate_from_pool(usize::MAX, &strings(&["学习"]), 9);
    assert!(made.sentences.is_empty());
}

#[test]
fn odds_and_lengths_are_fixed() {
    assert_eq!(odds_of(Coin::Particle), (3, 10));
    assert_eq!(odds_of(Coin::Question), (15, 100));
    assert_eq!(odds_of(Coin::Exclamation), (1, 10));
    assert_eq!([1, 2, 3, 4].map(length_bounds), [(3, 7), (3, 7), (5, 10), (5, 10)]);
}

#[test]
fn the_coin_decides_where_a_word_comes_from() {
    let common = strings(&["的"]);
    let pool = strings(&["苹果"]);
    assert_eq!(word_source(true, &common, &pool), &common);
    assert_eq!(word_source(false, &common, &pool), &pool);
}

#[test]
fn chance_keeps_to_what_it_is_asked_for() {
    assert!((0..100).all(|_| Toss::throw(1, 1).is_yes()));
    assert!((0..100).all(|_| !Toss::throw(0, 7).is_yes()));
    assert!((0..500).any(|_| Toss::throw(3, 10).is_yes()));
    assert!((0..500).any(|_| !Toss::throw(3, 10).is_yes()));
    let rolls: Vec<usize> = (0..500).map(|_| Roll::throw(3, 7).value()).collect();
    assert!(rolls.iter().all(|n| (3..7).contains(n)));
    assert!((3..7).all(|n| rolls.contains(&n)));
    let words = strings(&["一", "二"]);
    let picks: Vec<String> = (0..500).map(|_| Pick::from_words(&words).unwrap().into_word()).collect();
    assert!(picks.iter().all(|w| words.contains(w)));
    assert!(words.iter().all(|w| picks.contains(w)));
    assert!(Pick::from_words(&Vec::new()).is_none());
}

#[test]
fn particles_and_words_of_the_pool_are_mixed() {
    let pool = strings(&["苹果"]);
    let text = generate_from_pool(200, &pool, 4).sentences.concat();
    assert!(text.contains("苹果"));
    assert!(particle_list().iter().any(|p| text.contains(p.as_str())));
}

#[test]
fn sentences_of_attempts_are_kept_up_to_the_count() {
    let attempt = |words: &[&str], question: bool, exclamation: bool| Attempt {
        coins: vec![false; words.len()],
        words: strings(words),
        question,
        exclamation,
    };
    let attempts = vec![
        attempt(&["我", "喜欢", "吃"], true, false),
        attempt(&["我", "你"], false, false),
        attempt(&["学习", "苹果", "吃"], false, true),
        attempt(&["我们", "学习", "吗"], false, false),
    ];
    let all = keep_sentences(&attempts, 10);
    assert_eq!(all.sentences, strings(&["我喜欢吃？", "学习苹果吃！", "我们学习吗。"]));
    assert_eq!(all.attempts, 4);
    let two = keep_sentences(&attempts, 2);
    assert_eq!(two.sentences, strings(&["我喜欢吃？", "学习苹果吃！"]));
    assert_eq!(two.attempts, 3);
    let none = keep_sentences(&attempts, 0);
    assert!(none.sentences.is_empty());
    assert_eq!(none.attempts, 0);
}
