use zho_complexity::report::{first_readable, level_label, readable_mark, verdict};

#[test]
fn levels_have_names() {
    let hsk: Vec<String> = (0..7).map(|i| level_label(true, i)).collect();
    assert_eq!(hsk, vec!["L1", "L2", "L3", "L4", "L5", "L6", "L7 (OOV)"]);
    let top: Vec<String> = (0..5).map(|i| level_label(false, i)).collect();
    assert_eq!(top, vec!["L1", "L2", "L3", "L4", "L5 (beyond TOP)"]);
}

#[test]
fn verdicts_name_the_level() {
    assert_eq!(verdict(true, Some(0)), "HSK level 1");
    assert_eq!(verdict(true, Some(5)), "HSK level 6");
    assert_eq!(verdict(true, Some(6)), "HSK level 7 (OOV - very difficult)");
    assert_eq!(verdict(true, Some(7)), "Unknown");
    assert_eq!(verdict(true, None), "No HSK level (extremely difficult / outside HSK scale)");
    assert_eq!(verdict(false, Some(3)), "TOP level 4");
    assert_eq!(verdict(false, Some(4)), "TOP level 5 (beyond TOP - very difficult)");
    assert_eq!(verdict(false, Some(5)), "Unknown");
    assert_eq!(verdict(false, None), "No TOP level (extremely difficult / outside TOP scale)");
}

#[test]
fn marks_say_yes_or_no() {
    assert_eq!(readable_mark(1), "✓");
    assert_eq!(readable_mark(0), "✗");
    assert_eq!(readable_mark(2), "✗");
}

#[test]
fn the_first_readable_level_is_found() {
    assert_eq!(first_readable(&vec![0, 0, 1, 1]), Some(2));
    assert_eq!(first_readable(&vec![1]), Some(0));
    assert_eq!(first_readable(&vec![0, 2]), None);
    assert_eq!(first_readable(&vec![]), None);
}
