use rustc_hash::FxHashMap;
use zho_complexity::json::Json;
use zho_complexity::vocab::{vocab_from_json, VocabError};
use zho_complexity::{load_hsk_vocab, load_top_vocab};

fn sorted(vocab: FxHashMap<String, u32>) -> Vec<(String, u32)> {
    let mut list: Vec<(String, u32)> = vocab.into_iter().collect();
    list.sort();
    list
}

fn words(list: &[(&str, u32)]) -> Vec<(String, u32)> {
    list.iter().map(|(w, l)| (w.to_string(), *l)).collect()
}

#[test]
fn entries_give_the_first_level_of_each_word() {
    let text = r#"{"entries": [
        {"sm": "a", "meanings": [{"top": 9}, {"hsk": 2, "top": 4}, {"hsk": 1}]},
        {"sm": "b", "meanings": [{"hsk": "3"}, {"hsk": -1}, {"hsk": 1.5}]},
        {"sm": "c", "meanings": []},
        {"sm": "d"},
        {"meanings": [{"hsk": 1}]},
        {"sm": 7, "meanings": [{"hsk": 1}]},
        {"sm": "e", "meanings": [{"hsk": null}, {"hsk": 6}]}
    ]}"#;
    assert_eq!(sorted(load_hsk_vocab(text).unwrap()), words(&[("a", 2), ("e", 6)]));
    assert_eq!(sorted(load_top_vocab(text).unwrap()), words(&[("a", 9)]));
}

#[test]
fn of_two_entries_of_a_word_the_last_counts() {
    let text = r#"{"entries": [
        {"sm": "a", "meanings": [{"hsk": 1}]},
        {"sm": "b", "meanings": [{"hsk": 2}]},
        {"sm": "a", "meanings": [{"hsk": 5}]},
        {"sm": "b", "meanings": []}
    ]}"#;
    assert_eq!(sorted(load_hsk_vocab(text).unwrap()), words(&[("a", 5), ("b", 2)]));
}

#[test]
fn entries_come_before_other_members() {
    let text = r#"{"a": 1, "entries": [{"sm": "b", "meanings": [{"top": 3}]}]}"#;
    assert_eq!(sorted(load_top_vocab(text).unwrap()), words(&[("b", 3)]));
    let text = r#"{"a": 1, "entries": []}"#;
    assert!(load_top_vocab(text).unwrap().is_empty());
}

#[test]
fn a_list_of_words_with_levels() {
    let text = r#"[{"word": "我", "level": 1}, {"word": "你"}, {"level": 2}, 3, {"word": "他", "level": 4}, {"word": "我", "level": 2}]"#;
    assert_eq!(sorted(load_hsk_vocab(text).unwrap()), words(&[("他", 4), ("我", 2)]));
    assert_eq!(sorted(load_top_vocab(text).unwrap()), words(&[("他", 4), ("我", 2)]));
}

#[test]
fn an_object_from_words_to_levels() {
    let text = r#"{"我": 1, "你": "2", "entries": 3, "他": -4, "大": 4294967298}"#;
    assert_eq!(
        sorted(load_hsk_vocab(text).unwrap()),
        words(&[("entries", 3), ("大", 2), ("我", 1)])
    );
}

#[test]
fn a_text_that_is_no_document_is_an_error() {
    let error = load_hsk_vocab("{").unwrap_err();
    assert!(matches!(error, VocabError::Json(_)));
    assert_eq!(error.message(), None);
    assert!(matches!(load_top_vocab("").unwrap_err(), VocabError::Json(_)));
}

#[test]
fn a_document_of_another_form_is_an_error() {
    let error = load_hsk_vocab("3").unwrap_err();
    assert!(matches!(error, VocabError::InvalidHskFormat));
    assert_eq!(error.message(), Some("Invalid HSK vocabulary format"));
    let error = load_top_vocab("\"words\"").unwrap_err();
    assert!(matches!(error, VocabError::InvalidTopFormat));
    assert_eq!(error.message(), Some("Invalid TOP vocabulary format"));
    assert!(matches!(load_top_vocab("null").unwrap_err(), VocabError::InvalidTopFormat));
}

#[test]
fn of_members_with_the_same_name_the_last_counts() {
    let member = |name: &str, value: Json| (name.to_string(), value);
    let data = Json::Object(vec![
        member("a", Json::Number(Some(1))),
        member("b", Json::Number(Some(2))),
        member("a", Json::Number(Some(3))),
        member("b", Json::Null),
    ]);
    assert_eq!(sorted(vocab_from_json(&data, "hsk").unwrap()), words(&[("a", 3)]));
    assert!(matches!(data.get("a"), Some(Json::Number(Some(3)))));
    assert!(matches!(data.get("b"), Some(Json::Null)));
    assert!(data.get("c").is_none());
}

#[test]
fn documents_are_read_as_plain_values() {
    let data = Json::parse(r#"{"n": null, "t": true, "i": 12, "f": 0.5, "s": "字", "l": [1, "x"]}"#).unwrap();
    assert!(matches!(data.get("n"), Some(Json::Null)));
    assert!(matches!(data.get("t"), Some(Json::Bool(true))));
    assert_eq!(data.get("i").unwrap().as_u64(), Some(12));
    assert!(matches!(data.get("f"), Some(Json::Number(None))));
    assert_eq!(data.get("f").unwrap().as_u64(), None);
    assert_eq!(data.get("s").unwrap().as_str(), Some("字"));
    let list = data.get("l").unwrap().as_array().unwrap();
    assert_eq!(list.len(), 2);
    assert_eq!(list[0].as_u64(), Some(1));
    assert_eq!(list[1].as_str(), Some("x"));
    assert!(list[0].as_str().is_none());
    assert!(list[0].as_array().is_none());
    assert!(list[0].get("n").is_none());
    assert!(Json::parse("[1,").is_err());
}
