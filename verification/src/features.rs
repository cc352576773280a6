//! Feature extraction, lexical coverage and labels.
use crate::text::count_word_chars;
use crate::types::{Ratio, SentenceFeatures, WordMatch};
use vstd::prelude::*;

verus! {

use crate::matcher::{
    is_longest_reading, law_byte_offsets_correct, law_longest_reading_deterministic, same_match,
    same_matches,
};
use crate::text::{is_punctuation, word_chars};
use vstd::utf8::{decode_utf8, encode_utf8, is_char_boundary, valid_utf8};

// ---------------------------------------------------------------------------
// Levels
// ---------------------------------------------------------------------------

/// The level of a match in the HSK vocabulary or in the TOP vocabulary.
pub open spec fn level_of(m: WordMatch, is_hsk: bool) -> Option<u32> {
    if is_hsk {
        m.hsk_level
    } else {
        m.top_level
    }
}

/// The levels of the matches that have one, in order.
pub open spec fn levels(matches: Seq<WordMatch>, is_hsk: bool) -> Seq<u32>
    decreases matches.len(),
{
    if matches.len() == 0 {
        Seq::empty()
    } else {
        let front = levels(matches.drop_last(), is_hsk);
        match level_of(matches.last(), is_hsk) {
            Some(level) => front.push(level),
            None => front,
        }
    }
}

/// The largest of some levels, 0 where there are none.
pub open spec fn max_level(levels: Seq<u32>) -> u32
    decreases levels.len(),
{
    if levels.len() == 0 {
        0
    } else if max_level(levels.drop_last()) < levels.last() {
        levels.last()
    } else {
        max_level(levels.drop_last())
    }
}

/// The sum of some levels.
pub open spec fn level_sum(levels: Seq<u32>) -> nat
    decreases levels.len(),
{
    if levels.len() == 0 {
        0
    } else {
        level_sum(levels.drop_last()) + levels.last() as nat
    }
}

/// How many of some levels are `threshold` or more.
pub open spec fn count_from(levels: Seq<u32>, threshold: u32) -> nat {
    levels.filter(|l: u32| l >= threshold).len()
}

/// How many of some levels are `threshold` or less.
pub open spec fn count_up_to(levels: Seq<u32>, threshold: u32) -> nat {
    levels.filter(|l: u32| l <= threshold).len()
}

/// Collect the levels of the matches that have one.
pub fn collect_levels(matches: &[WordMatch], is_hsk: bool) -> (r: Vec<u32>)
    ensures
        r@ == levels(matches@, is_hsk),
        r.len() <= matches@.len(),
{
    let mut found: Vec<u32> = Vec::new();
    for i in 0..matches.len()
        invariant
            found@ == levels(matches@.take(i as int), is_hsk),
            found.len() <= i,
    {
        assert(matches@.take(i + 1).drop_last() =~= matches@.take(i as int));
        let level: Option<u32> = if is_hsk {
            matches[i].hsk_level
        } else {
            matches[i].top_level
        };
        if let Some(l) = level {
            found.push(l);
        }
    }
    assert(matches@.take(matches@.len() as int) =~= matches@);
    found
}

/// The ratio of value 0.
pub open spec fn zero() -> Ratio {
    Ratio { numerator: 0, denominator: 1 }
}

/// `r` is `numerator` by `denominator`, neither of them shortened.
pub open spec fn is_ratio(r: Ratio, numerator: nat, denominator: nat) -> bool {
    r.numerator == numerator && r.denominator == denominator
}

/// `r` is the mean of some levels, 0 where there are none.
pub open spec fn is_mean(levels: Seq<u32>, r: Ratio) -> bool {
    if levels.len() == 0 {
        r == zero()
    } else {
        is_ratio(r, level_sum(levels), levels.len())
    }
}

/// Compute statistics for a level array: the maximum, the mean, the number of levels from
/// `high_threshold` on and the number of levels up to `low_threshold`.
pub fn compute_level_stats(levels: &Vec<u32>, high_threshold: u32, low_threshold: u32) -> (stats: (
    u32,
    Ratio,
    u32,
    u32,
))
    ensures
        stats.0 == max_level(levels@),
        is_mean(levels@, stats.1),
        stats.2 == count_from(levels@, high_threshold) as u32,
        stats.3 == count_up_to(levels@, low_threshold) as u32,
{
    let ghost high = |l: u32| l >= high_threshold;
    let ghost low = |l: u32| l <= low_threshold;
    let mut max: u32 = 0;
    let mut sum: u128 = 0;
    let mut count_high: usize = 0;
    let mut count_low: usize = 0;
    for i in 0..levels.len()
        invariant
            high == (|l: u32| l >= high_threshold),
            low == (|l: u32| l <= low_threshold),
            max == max_level(levels@.take(i as int)),
            sum == level_sum(levels@.take(i as int)),
            sum <= i * u32::MAX,
            count_high == levels@.take(i as int).filter(high).len(),
            count_low == levels@.take(i as int).filter(low).len(),
            count_high <= i,
            count_low <= i,
    {
        let level: u32 = levels[i];
        proof {
            reveal(Seq::filter);
            assert(levels@.take(i + 1).drop_last() =~= levels@.take(i as int));
            assert(levels@.take(i + 1).last() == level);
        }
        if max < level {
            max = level;
        }
        sum = sum + level as u128;
        if level >= high_threshold {
            count_high = count_high + 1;
        }
        if level <= low_threshold {
            count_low = count_low + 1;
        }
    }
    assert(levels@.take(levels@.len() as int) =~= levels@);
    let mean: Ratio = if levels.len() == 0 {
        Ratio { numerator: 0, denominator: 1 }
    } else {
        Ratio { numerator: sum, denominator: levels.len() as u128 }
    };
    (max, mean, count_high as u32, count_low as u32)
}

// ---------------------------------------------------------------------------
// Characters
// ---------------------------------------------------------------------------

/// The number of characters of the matched words.
pub open spec fn char_count(matches: Seq<WordMatch>) -> nat
    decreases matches.len(),
{
    if matches.len() == 0 {
        0
    } else {
        char_count(matches.drop_last()) + matches.last().text@.len()
    }
}

/// The number of characters of the matched words that are not punctuation.
pub open spec fn word_char_count(matches: Seq<WordMatch>) -> nat
    decreases matches.len(),
{
    if matches.len() == 0 {
        0
    } else {
        word_char_count(matches.drop_last()) + word_chars(matches.last().text@)
    }
}

/// The match is of a hard word: HSK level 5 or more, or TOP level 4 or more.
pub open spec fn is_hard(m: WordMatch) -> bool {
    ||| m.hsk_level is Some && m.hsk_level->0 >= 5
    ||| m.top_level is Some && m.top_level->0 >= 4
}

/// The matches of hard words.
pub open spec fn hard_matches(matches: Seq<WordMatch>) -> Seq<WordMatch> {
    matches.filter(|m: WordMatch| is_hard(m))
}

proof fn lemma_product_bound(i: int, bound: int)
    requires
        0 <= i <= usize::MAX,
        0 <= bound <= usize::MAX,
    ensures
        0 <= i * bound <= u128::MAX,
{
    assert(0 <= i * bound <= usize::MAX * usize::MAX) by (nonlinear_arith)
        requires
            0 <= i <= usize::MAX,
            0 <= bound <= usize::MAX,
    ;
    assert(usize::MAX * usize::MAX <= u128::MAX) by (nonlinear_arith)
        requires
            usize::MAX <= 0xffff_ffff_ffff_ffff,
    ;
}

/// Whether a match is of a hard word.
fn is_hard_match(m: &WordMatch) -> (r: bool)
    ensures
        r == is_hard(*m),
{
    let hsk_hard: bool = match m.hsk_level {
        Some(l) => l >= 5,
        None => false,
    };
    let top_hard: bool = match m.top_level {
        Some(l) => l >= 4,
        None => false,
    };
    hsk_hard || top_hard
}

/// Count the characters of the matched words: all of them, those that are not punctuation, and
/// those of hard words.
fn count_chars(matches: &[WordMatch]) -> (counts: (u128, u128, u128))
    ensures
        counts.0 == char_count(matches@),
        counts.1 == word_char_count(matches@),
        counts.2 == char_count(hard_matches(matches@)),
{
    let ghost keep = |m: WordMatch| is_hard(m);
    let mut all: u128 = 0;
    let mut words: u128 = 0;
    let mut hard: u128 = 0;
    for i in 0..matches.len()
        invariant
            keep == (|m: WordMatch| is_hard(m)),
            all == char_count(matches@.take(i as int)),
            words == word_char_count(matches@.take(i as int)),
            hard == char_count(matches@.take(i as int).filter(keep)),
            all <= i * usize::MAX,
            words <= i * usize::MAX,
            hard <= i * usize::MAX,
    {
        let m: &WordMatch = &matches[i];
        let chars: usize = m.text.as_str().unicode_len();
        let parts: usize = count_word_chars(m.text.as_str());
        proof {
            reveal(Seq::filter);
            assert(matches@.take(i + 1).drop_last() =~= matches@.take(i as int));
            assert(matches@.take(i + 1).last() == m);
            let before = matches@.take(i as int).filter(keep);
            assert(before.push(*m).drop_last() =~= before);
            lemma_product_bound(i + 1, usize::MAX as int);
            assert((i + 1) * usize::MAX == i * usize::MAX + usize::MAX) by (nonlinear_arith);
        }
        all = all + chars as u128;
        words = words + parts as u128;
        if is_hard_match(m) {
            hard = hard + chars as u128;
        }
    }
    assert(matches@.take(matches@.len() as int) =~= matches@);
    (all, words, hard)
}

/// `r` is the estimated proportion of rare characters: characters of hard words by characters of
/// all matched words, 0 where there are none.
pub open spec fn is_rare_char_ratio(matches: Seq<WordMatch>, r: Ratio) -> bool {
    if hard_matches(matches).len() == 0 || char_count(matches) == 0 {
        r == zero()
    } else {
        is_ratio(r, char_count(hard_matches(matches)), char_count(matches))
    }
}

/// Estimate proportion of rare characters (heuristic).
pub fn estimate_rare_char_ratio(matches: &[WordMatch]) -> (r: Ratio)
    ensures
        is_rare_char_ratio(matches@, r),
{
    let ghost keep = |m: WordMatch| is_hard(m);
    let counts: (u128, u128, u128) = count_chars(matches);
    let mut any_hard: bool = false;
    for i in 0..matches.len()
        invariant
            keep == (|m: WordMatch| is_hard(m)),
            any_hard == (matches@.take(i as int).filter(keep).len() > 0),
    {
        proof {
            reveal(Seq::filter);
            assert(matches@.take(i + 1).drop_last() =~= matches@.take(i as int));
        }
        if is_hard_match(&matches[i]) {
            any_hard = true;
        }
    }
    assert(matches@.take(matches@.len() as int) =~= matches@);
    if !any_hard || counts.0 == 0 {
        Ratio { numerator: 0, denominator: 1 }
    } else {
        Ratio { numerator: counts.2, denominator: counts.0 }
    }
}

// ---------------------------------------------------------------------------
// Features
// ---------------------------------------------------------------------------

/// The difference of two numbers, 0 where it would be negative.
pub open spec fn excess(a: nat, b: nat) -> nat {
    if a >= b {
        (a - b) as nat
    } else {
        0
    }
}

/// The number of characters of a sentence that no match accounts for. Punctuation is never out of
/// vocabulary, so no more are taken than there are with punctuation left aside.
pub open spec fn unmatched_chars(matches: Seq<WordMatch>, sentence: Seq<char>) -> nat {
    let all = excess(sentence.len(), char_count(matches));
    let words = excess(word_chars(sentence), word_char_count(matches));
    if all <= words {
        all
    } else {
        words
    }
}

/// `f` are the features of a sentence with the given matches.
pub open spec fn is_features(
    matches: Seq<WordMatch>,
    sentence: Seq<char>,
    f: SentenceFeatures<Ratio>,
) -> bool {
    let hsk = levels(matches, true);
    let top = levels(matches, false);
    &&& is_ratio(f.hsk_max, max_level(hsk) as nat, 1)
    &&& is_mean(hsk, f.hsk_mean)
    &&& f.hsk_count_high == hsk.filter(|l: u32| 5 <= l <= 6).len() as u32
    &&& f.hsk_count_low == hsk.filter(|l: u32| 1 <= l <= 2).len() as u32
    &&& is_ratio(f.top_max, max_level(top) as nat, 1)
    &&& is_mean(top, f.top_mean)
    &&& f.top_count_high == top.filter(|l: u32| l == 4).len() as u32
    &&& f.total_words == matches.len() as u32
    &&& f.sentence_length == sentence.len() as u32
    &&& is_rare_char_ratio(matches, f.rare_char_ratio)
    &&& if matches.len() == 0 {
        &&& is_ratio(f.oov_ratio, 1, 1)
        &&& f.avg_word_length == zero()
    } else {
        &&& if sentence.len() == 0 {
            f.oov_ratio == zero()
        } else {
            is_ratio(f.oov_ratio, unmatched_chars(matches, sentence), sentence.len())
        }
        &&& is_ratio(f.avg_word_length, char_count(matches), matches.len())
    }
}

/// Count the levels from `low` to `high`.
pub fn count_within(levels: &Vec<u32>, low: u32, high: u32) -> (n: usize)
    ensures
        n == levels@.filter(|l: u32| low <= l <= high).len(),
{
    let ghost keep = |l: u32| low <= l <= high;
    let mut n: usize = 0;
    for i in 0..levels.len()
        invariant
            keep == (|l: u32| low <= l <= high),
            n == levels@.take(i as int).filter(keep).len(),
            n <= i,
    {
        proof {
            reveal(Seq::filter);
            assert(levels@.take(i + 1).drop_last() =~= levels@.take(i as int));
        }
        if low <= levels[i] && levels[i] <= high {
            n = n + 1;
        }
    }
    assert(levels@.take(levels@.len() as int) =~= levels@);
    n
}

/// The difference of two numbers, 0 where it would be negative.
fn difference(a: u128, b: u128) -> (r: u128)
    ensures
        r == excess(a as nat, b as nat),
{
    if a >= b {
        a - b
    } else {
        0
    }
}

/// Extract 12-dimensional feature vector from word matches.
///
/// Features:
/// 1. hsk_max: maximum HSK level found
/// 2. hsk_mean: mean HSK level
/// 3. hsk_count_high: count of HSK levels 5-6
/// 4. hsk_count_low: count of HSK levels 1-2
/// 5. top_max: maximum TOP level found
/// 6. top_mean: mean TOP level
/// 7. top_count_high: count of TOP level 4 words (the TOP dictionary only has levels 1-4)
/// 8. total_words: number of matched words
/// 9. oov_ratio: out-of-vocabulary ratio, in characters, with punctuation never out of vocabulary
/// 10. sentence_length: character count
/// 11. rare_char_ratio: estimated rare character proportion
/// 12. avg_word_length: average matched word length
pub fn extract_features(matches: &[WordMatch], sentence: &str) -> (f: SentenceFeatures<Ratio>)
    ensures
        is_features(matches@, sentence@, f),
{
    let length: usize = sentence.unicode_len();
    let counts: (u128, u128, u128) = count_chars(matches);
    let hsk_levels: Vec<u32> = collect_levels(matches, true);
    let top_levels: Vec<u32> = collect_levels(matches, false);
    let hsk: (u32, Ratio, u32, u32) = compute_level_stats(&hsk_levels, 5, 2);
    let top: (u32, Ratio, u32, u32) = compute_level_stats(&top_levels, 4, 1);
    let rare_char_ratio: Ratio = estimate_rare_char_ratio(matches);
    let hsk_count_high: usize = count_within(&hsk_levels, 5, 6);
    let hsk_count_low: usize = count_within(&hsk_levels, 1, 2);
    let top_count_high: usize = count_within(&top_levels, 4, 4);
    proof {
        lemma_filter_same(top_levels@, |l: u32| 4 <= l <= 4, |l: u32| l == 4);
    }
    let unmatched_all: u128 = difference(length as u128, counts.0);
    let unmatched_words: u128 = difference(count_word_chars(sentence) as u128, counts.1);
    let unmatched: u128 = if unmatched_all <= unmatched_words {
        unmatched_all
    } else {
        unmatched_words
    };
    let oov_ratio: Ratio = if matches.len() == 0 {
        Ratio { numerator: 1, denominator: 1 }
    } else if length == 0 {
        Ratio { numerator: 0, denominator: 1 }
    } else {
        Ratio { numerator: unmatched, denominator: length as u128 }
    };
    let avg_word_length: Ratio = if matches.len() == 0 {
        Ratio { numerator: 0, denominator: 1 }
    } else {
        Ratio { numerator: counts.0, denominator: matches.len() as u128 }
    };
    SentenceFeatures {
        hsk_max: Ratio { numerator: hsk.0 as u128, denominator: 1 },
        hsk_mean: hsk.1,
        hsk_count_high: hsk_count_high as u32,
        hsk_count_low: hsk_count_low as u32,
        top_max: Ratio { numerator: top.0 as u128, denominator: 1 },
        top_mean: top.1,
        top_count_high: top_count_high as u32,
        total_words: matches.len() as u32,
        oov_ratio,
        sentence_length: length as u32,
        rare_char_ratio,
        avg_word_length,
    }
}

// ---------------------------------------------------------------------------
// Coverage and labels
// ---------------------------------------------------------------------------

/// A learner of the given level knows the matched word.
pub open spec fn knows(m: WordMatch, level: u32, is_hsk: bool) -> bool {
    level_of(m, is_hsk) is Some && level_of(m, is_hsk)->0 <= level
}

/// The number of matched words that a learner of the given level knows.
pub open spec fn known_count(matches: Seq<WordMatch>, level: u32, is_hsk: bool) -> nat {
    matches.filter(|m: WordMatch| knows(m, level, is_hsk)).len()
}

/// `r` is the lexical coverage of a text at the given level: known words by all words, 0 where
/// there are no words.
pub open spec fn is_coverage(matches: Seq<WordMatch>, level: u32, is_hsk: bool, r: Ratio) -> bool {
    if matches.len() == 0 {
        r == zero()
    } else {
        is_ratio(r, known_count(matches, level, is_hsk), matches.len())
    }
}

/// Compute lexical coverage for a specific learner level.
///
/// coverage = known_words / total_words
/// where known_words have difficulty at most `level`.
pub fn compute_coverage(matches: &[WordMatch], level: u32, is_hsk: bool) -> (r: Ratio)
    ensures
        is_coverage(matches@, level, is_hsk, r),
        r.numerator <= r.denominator <= usize::MAX,
{
    let ghost keep = |m: WordMatch| knows(m, level, is_hsk);
    let mut known: usize = 0;
    for i in 0..matches.len()
        invariant
            keep == (|m: WordMatch| knows(m, level, is_hsk)),
            known == matches@.take(i as int).filter(keep).len(),
            known <= i,
    {
        proof {
            reveal(Seq::filter);
            assert(matches@.take(i + 1).drop_last() =~= matches@.take(i as int));
        }
        let found: Option<u32> = if is_hsk {
            matches[i].hsk_level
        } else {
            matches[i].top_level
        };
        let is_known: bool = match found {
            Some(l) => l <= level,
            None => false,
        };
        if is_known {
            known = known + 1;
        }
    }
    assert(matches@.take(matches@.len() as int) =~= matches@);
    if matches.len() == 0 {
        return Ratio { numerator: 0, denominator: 1 };
    }
    Ratio { numerator: known as u128, denominator: matches.len() as u128 }
}

/// The rule of 90%: a text is readable at a level where at least nine in ten of its words are
/// known. A text without known vocabulary is readable nowhere.
pub open spec fn is_readable(matches: Seq<WordMatch>, level: u32) -> bool {
    &&& matches.len() > 0
    &&& 10 * known_count(matches, level, true) >= 9 * matches.len()
}

/// The label of a yes-or-no answer.
pub open spec fn label(yes: bool) -> u32 {
    if yes {
        1
    } else {
        0
    }
}

/// The HSK labels: the rule of 90% for each level from 1 to 7.
pub open spec fn hsk_labels(matches: Seq<WordMatch>) -> Seq<u32> {
    Seq::new(7, |i: int| label(is_readable(matches, (i + 1) as u32)))
}

/// The TOP level of a text: that of its hardest word, 4 at most, or 5 where the TOP vocabulary
/// holds none of its words.
pub open spec fn top_difficulty(matches: Seq<WordMatch>) -> u32 {
    let found = levels(matches, false);
    if found.len() == 0 {
        5
    } else if max_level(found) < 4 {
        max_level(found)
    } else {
        4
    }
}

/// The TOP labels: a text is readable from its TOP level on.
pub open spec fn top_labels(matches: Seq<WordMatch>) -> Seq<u32> {
    Seq::new(5, |i: int| label(top_difficulty(matches) <= i + 1))
}

/// The labels after closure: 1 from the first 1 on.
pub open spec fn monotonic_closure(labels: Seq<u32>) -> Seq<u32> {
    Seq::new(
        labels.len(),
        |i: int|
            if labels.take(i + 1).contains(1u32) {
                1u32
            } else {
                labels[i]
            },
    )
}

/// Enforce monotonic constraint on labels: if label[i] == 1, then label[i+1..] must all be 1.
pub fn enforce_monotonic(labels: &mut Vec<u32>)
    ensures
        final(labels)@ == monotonic_closure(old(labels)@),
{
    let ghost given = labels@;
    let n: usize = labels.len();
    let mut i: usize = 1;
    assert forall|j: int| 0 <= j < 1 && j < n implies labels[j] == monotonic_closure(given)[j] by {
        if given.take(1).contains(1u32) {
            assert(given.take(1)[0] == 1u32);
        }
    }
    while i < n
        invariant
            1 <= i,
            n == labels.len() == given.len(),
            forall|j: int| 0 <= j < i && j < n ==> labels[j] == monotonic_closure(given)[j],
            forall|j: int| i <= j < n ==> labels[j] == given[j],
        decreases n - i,
    {
        proof {
            let shorter = given.take(i as int);
            let longer = given.take(i + 1);
            assert(longer =~= shorter.push(given[i as int]));
            assert(labels[i - 1] == monotonic_closure(given)[i - 1]);
            if shorter.contains(1u32) {
                assert(longer[shorter.index_of(1u32)] == 1u32);
            } else {
                if given[i - 1] == 1u32 {
                    assert(shorter[i - 1] == 1u32);
                }
                if longer.contains(1u32) && given[i as int] != 1u32 {
                    assert(shorter[longer.index_of(1u32)] == 1u32);
                }
            }
        }
        if labels[i - 1] == 1 {
            labels[i] = 1;
        }
        i = i + 1;
    }
    assert(labels@ =~= monotonic_closure(given));
}

proof fn lemma_filter_grows<A>(list: Seq<A>, narrow: spec_fn(A) -> bool, wide: spec_fn(A) -> bool)
    requires
        forall|x: A| #[trigger] narrow(x) ==> wide(x),
    ensures
        list.filter(narrow).len() <= list.filter(wide).len() <= list.len(),
    decreases list.len(),
{
    reveal(Seq::filter);
    if list.len() > 0 {
        lemma_filter_grows(list.drop_last(), narrow, wide);
    }
}

/// Coverage grows with the level: who knows more words covers no less of a text. It is never more
/// than the whole.
pub proof fn law_coverage_monotonic(
    matches: Seq<WordMatch>,
    lower: u32,
    higher: u32,
    is_hsk: bool,
)
    requires
        lower <= higher,
    ensures
        known_count(matches, lower, is_hsk) <= known_count(matches, higher, is_hsk)
            <= matches.len(),
{
    lemma_filter_grows(
        matches,
        |m: WordMatch| knows(m, lower, is_hsk),
        |m: WordMatch| knows(m, higher, is_hsk),
    );
}

/// The rule of 90%: at each HSK level the label is 1 where the coverage is at least 90%, and 0
/// where it is less.
pub proof fn law_ninety_percent_rule(matches: Seq<WordMatch>, level: u32, coverage: Ratio)
    requires
        1 <= level <= 7,
        is_coverage(matches, level, true, coverage),
    ensures
        10 * coverage.numerator >= 9 * coverage.denominator ==> hsk_labels(matches)[level - 1] == 1,
        10 * coverage.numerator < 9 * coverage.denominator ==> hsk_labels(matches)[level - 1] == 0,
{
}

/// The rule of the hardest word: a text is readable at a level of the TOP dictionary where the
/// dictionary holds some of its words and none of them is harder than the level, with every word
/// taken to be within the dictionary's four levels. Beyond them every text is readable.
pub proof fn law_hardest_word_rule(matches: Seq<WordMatch>, level: u32)
    requires
        1 <= level <= 5,
    ensures
        top_labels(matches)[level - 1] == 1 <==> (level == 5 || (levels(matches, false).len() > 0 && (
        level == 4 || forall|i: int|
            0 <= i < levels(matches, false).len() ==> #[trigger] levels(matches, false)[i]
                <= level))),
        top_labels(matches)[level - 1] == 0 || top_labels(matches)[level - 1] == 1,
{
    law_max_level(levels(matches, false));
    let found = levels(matches, false);
    if found.len() > 0 {
        let i = found.index_of(max_level(found));
        assert(found[i] == max_level(found));
    }
}

/// Labels of 0 and 1 in which no 0 follows a 1.
pub open spec fn is_monotonic(labels: Seq<u32>) -> bool {
    &&& forall|i: int| 0 <= i < labels.len() ==> #[trigger] labels[i] == 0 || labels[i] == 1
    &&& forall|i: int, j: int|
        0 <= i <= j < labels.len() && #[trigger] labels[i] == 1 ==> #[trigger] labels[j] == 1
}

/// The labels are monotonic: a text that is readable at one level is readable at every higher
/// level, on the HSK scale and on the TOP scale.
pub proof fn law_labels_monotonic(matches: Seq<WordMatch>)
    ensures
        is_monotonic(hsk_labels(matches)),
        is_monotonic(top_labels(matches)),
{
    assert forall|i: int, j: int|
        0 <= i <= j < 7 && #[trigger] hsk_labels(matches)[i] == 1 implies #[trigger] hsk_labels(
        matches,
    )[j] == 1 by {
        law_coverage_monotonic(matches, (i + 1) as u32, (j + 1) as u32, true);
    }
}

/// Monotonic labels are left as they are.
pub proof fn law_closure_keeps_monotonic(labels: Seq<u32>)
    requires
        is_monotonic(labels),
    ensures
        monotonic_closure(labels) == labels,
{
    assert forall|i: int| 0 <= i < labels.len() implies monotonic_closure(labels)[i]
        == labels[i] by {
        let front = labels.take(i + 1);
        if front.contains(1u32) {
            let j = front.index_of(1u32);
            assert(labels[j] == 1u32);
        }
    }
    assert(monotonic_closure(labels) =~= labels);
}

/// Closure takes no 1 away, and done twice it does no more than done once.
pub proof fn law_closure_idempotent(labels: Seq<u32>)
    ensures
        forall|i: int|
            0 <= i < labels.len() && labels[i] == 1 ==> #[trigger] monotonic_closure(labels)[i]
                == 1,
        monotonic_closure(monotonic_closure(labels)) == monotonic_closure(labels),
{
    let closed = monotonic_closure(labels);
    assert forall|i: int| 0 <= i < labels.len() implies #[trigger] monotonic_closure(closed)[i]
        == closed[i] by {
        if closed.take(i + 1).contains(1u32) {
            let j = closed.take(i + 1).index_of(1u32);
            assert(closed[j] == 1);
            let k = if labels.take(j + 1).contains(1u32) {
                labels.take(j + 1).index_of(1u32)
            } else {
                j
            };
            assert(labels[k] == 1);
            assert(labels.take(i + 1)[k] == 1);
        }
    }
    assert(monotonic_closure(closed) =~= closed);
}

/// Closure makes labels of 0 and 1 monotonic.
pub proof fn law_closure_is_monotonic(labels: Seq<u32>)
    requires
        forall|i: int| 0 <= i < labels.len() ==> #[trigger] labels[i] == 0 || labels[i] == 1,
    ensures
        is_monotonic(monotonic_closure(labels)),
{
    let closed = monotonic_closure(labels);
    assert forall|i: int, j: int|
        0 <= i <= j < closed.len() && #[trigger] closed[i] == 1 implies #[trigger] closed[j]
        == 1 by {
        let k = if labels.take(i + 1).contains(1u32) {
            labels.take(i + 1).index_of(1u32)
        } else {
            i
        };
        assert(labels[k] == 1);
        assert(labels.take(j + 1)[k] == 1);
    }
}

/// HSK: coverage-based rule with monotonic closure.
pub fn compute_hsk_labels(matches: &[WordMatch]) -> (labels: Vec<u32>)
    ensures
        labels@ == hsk_labels(matches@),
{
    let mut labels: Vec<u32> = Vec::new();
    for level in 1u32..8u32
        invariant
            labels.len() == level - 1,
            forall|i: int|
                0 <= i < labels.len() ==> #[trigger] labels[i] == hsk_labels(matches@)[i],
    {
        let coverage: Ratio = compute_coverage(matches, level, true);
        if 10 * coverage.numerator >= 9 * coverage.denominator {
            labels.push(1);
        } else {
            labels.push(0);
        }
    }
    proof {
        assert(labels@ =~= hsk_labels(matches@));
        law_labels_monotonic(matches@);
        law_closure_keeps_monotonic(labels@);
    }
    enforce_monotonic(&mut labels);
    labels
}

/// TOP: ordinal labels based on the maximum TOP level found.
///
/// The TOP dictionary only contains levels 1-4, so there are 5 levels in all (1-4 and 5 for what
/// is beyond TOP). Ordinal labeling:
/// - maximum 1: readable from L1 onwards, [1,1,1,1,1]
/// - maximum 3: readable from L3 onwards, [0,0,1,1,1]
/// - no TOP word: readable from L5 only, [0,0,0,0,1]
pub fn compute_top_labels(matches: &[WordMatch]) -> (labels: Vec<u32>)
    ensures
        labels@ == top_labels(matches@),
{
    let top_matched: Vec<u32> = collect_levels(matches, false);
    let max_top: u32 = if top_matched.len() == 0 {
        5
    } else {
        let max: u32 = compute_level_stats(&top_matched, 4, 1).0;
        if max < 4 {
            max
        } else {
            4
        }
    };
    let mut labels: Vec<u32> = Vec::new();
    for level in 1u32..6u32
        invariant
            max_top == top_difficulty(matches@),
            labels.len() == level - 1,
            forall|i: int|
                0 <= i < labels.len() ==> #[trigger] labels[i] == top_labels(matches@)[i],
    {
        if max_top <= level {
            labels.push(1);
        } else {
            labels.push(0);
        }
    }
    assert(labels@ =~= top_labels(matches@));
    labels
}

/// Generate training labels using the 90% comprehension rule for HSK and a stricter
/// max-level-aware rule for TOP.
///
/// Returns (hsk_labels, top_labels)
/// - hsk_labels: [L1..L7] where 1=readable, 0=not readable (L7 = very hard)
/// - top_labels: [L1..L5] where 1=readable, 0=not readable (L5 = beyond TOP, TOP has only 1-4)
pub fn compute_labels(matches: &[WordMatch]) -> (labels: (Vec<u32>, Vec<u32>))
    ensures
        labels.0@ == hsk_labels(matches@),
        labels.1@ == top_labels(matches@),
{
    (compute_hsk_labels(matches), compute_top_labels(matches))
}

// ---------------------------------------------------------------------------
// Laws of the features
// ---------------------------------------------------------------------------

/// The maximum of some levels is one of them and no smaller than any of them.
pub proof fn law_max_level(levels: Seq<u32>)
    ensures
        forall|i: int| 0 <= i < levels.len() ==> #[trigger] levels[i] <= max_level(levels),
        levels.len() > 0 ==> levels.contains(max_level(levels)),
    decreases levels.len(),
{
    if levels.len() > 0 {
        let front = levels.drop_last();
        law_max_level(front);
        assert forall|i: int| 0 <= i < levels.len() implies #[trigger] levels[i] <= max_level(
            levels,
        ) by {
            if i < front.len() {
                assert(front[i] == levels[i]);
            }
        }
        if max_level(levels) == levels.last() {
            assert(levels[levels.len() - 1] == max_level(levels));
        } else {
            assert(levels[front.index_of(max_level(front))] == max_level(levels));
        }
    }
}

/// The levels that are collected are those of the matches: a level is among them if and only if
/// some match has it.
pub proof fn law_levels_of_matches(matches: Seq<WordMatch>, is_hsk: bool, level: u32)
    ensures
        levels(matches, is_hsk).contains(level) <==> exists|i: int|
            0 <= i < matches.len() && #[trigger] level_of(matches[i], is_hsk) == Some(level),
        levels(matches, is_hsk).len() <= matches.len(),
    decreases matches.len(),
{
    if matches.len() > 0 {
        let front = matches.drop_last();
        let before = levels(front, is_hsk);
        let after = levels(matches, is_hsk);
        law_levels_of_matches(front, is_hsk, level);
        if after.contains(level) {
            let k = after.index_of(level);
            if k < before.len() {
                assert(before[k] == level);
                let i = choose|i: int|
                    0 <= i < front.len() && #[trigger] level_of(front[i], is_hsk) == Some(level);
                assert(level_of(matches[i], is_hsk) == Some(level));
            } else {
                assert(level_of(matches[matches.len() - 1], is_hsk) == Some(level));
            }
        }
        if exists|i: int|
            0 <= i < matches.len() && #[trigger] level_of(matches[i], is_hsk) == Some(level) {
            let i = choose|i: int|
                0 <= i < matches.len() && #[trigger] level_of(matches[i], is_hsk) == Some(level);
            if i < front.len() {
                assert(level_of(front[i], is_hsk) == Some(level));
                assert(after[before.index_of(level)] == level);
            } else {
                assert(after[before.len() as int] == level);
            }
        }
    }
}

proof fn lemma_filter_same<A>(list: Seq<A>, a: spec_fn(A) -> bool, b: spec_fn(A) -> bool)
    requires
        forall|i: int| 0 <= i < list.len() ==> a(#[trigger] list[i]) == b(list[i]),
    ensures
        list.filter(a) == list.filter(b),
    decreases list.len(),
{
    reveal(Seq::filter);
    if list.len() > 0 {
        assert forall|i: int| 0 <= i < list.drop_last().len() implies a(
            #[trigger] list.drop_last()[i],
        ) == b(list.drop_last()[i]) by {
            assert(list.drop_last()[i] == list[i]);
        }
        lemma_filter_same(list.drop_last(), a, b);
        assert(a(list[list.len() - 1]) == b(list[list.len() - 1]));
    }
}

/// On the HSK scale, levels 1 to 6, the level statistics count the features' high levels 5 and 6
/// and low levels 1 and 2.
pub proof fn law_hsk_counts_on_scale(levels: Seq<u32>)
    requires
        forall|i: int| 0 <= i < levels.len() ==> 1 <= #[trigger] levels[i] <= 6,
    ensures
        count_from(levels, 5) == levels.filter(|l: u32| 5 <= l <= 6).len(),
        count_up_to(levels, 2) == levels.filter(|l: u32| 1 <= l <= 2).len(),
{
    lemma_filter_same(levels, |l: u32| l >= 5, |l: u32| 5 <= l <= 6);
    lemma_filter_same(levels, |l: u32| l <= 2, |l: u32| 1 <= l <= 2);
}

/// On the TOP scale, levels 1 to 4, the level statistics count the features' only high level 4.
pub proof fn law_top_counts_on_scale(levels: Seq<u32>)
    requires
        forall|i: int| 0 <= i < levels.len() ==> 1 <= #[trigger] levels[i] <= 4,
    ensures
        count_from(levels, 4) == levels.filter(|l: u32| l == 4).len(),
{
    lemma_filter_same(levels, |l: u32| l >= 4, |l: u32| l == 4);
}

/// A ratio is at most 1.
pub open spec fn is_proportion(r: Ratio) -> bool {
    r.denominator > 0 && r.numerator <= r.denominator
}

proof fn lemma_sum_bound(levels: Seq<u32>, bound: u32)
    requires
        forall|i: int| 0 <= i < levels.len() ==> #[trigger] levels[i] <= bound,
    ensures
        level_sum(levels) <= levels.len() * bound,
    decreases levels.len(),
{
    if levels.len() > 0 {
        assert forall|i: int| 0 <= i < levels.drop_last().len() implies #[trigger] levels.drop_last()[i]
            <= bound by {
            assert(levels.drop_last()[i] == levels[i]);
        }
        lemma_sum_bound(levels.drop_last(), bound);
        assert(levels[levels.len() - 1] <= bound);
        let n = levels.len() - 1;
        assert((n + 1) * bound == n * bound + bound) by (nonlinear_arith);
    }
}

proof fn lemma_hard_chars_bound(matches: Seq<WordMatch>)
    ensures
        char_count(hard_matches(matches)) <= char_count(matches),
    decreases matches.len(),
{
    reveal(Seq::filter);
    if matches.len() > 0 {
        lemma_hard_chars_bound(matches.drop_last());
        let before = hard_matches(matches.drop_last());
        assert(before.push(matches.last()).drop_last() =~= before);
    }
}

/// The features make sense: the out-of-vocabulary ratio and the rare character ratio are
/// proportions, and a mean level is no more than the maximum level.
pub proof fn law_feature_ranges(
    matches: Seq<WordMatch>,
    sentence: Seq<char>,
    f: SentenceFeatures<Ratio>,
)
    requires
        is_features(matches, sentence, f),
    ensures
        is_proportion(f.oov_ratio),
        is_proportion(f.rare_char_ratio),
        f.hsk_mean.denominator > 0,
        f.hsk_mean.numerator <= f.hsk_max.numerator * f.hsk_mean.denominator,
        f.top_mean.denominator > 0,
        f.top_mean.numerator <= f.top_max.numerator * f.top_mean.denominator,
        f.avg_word_length.denominator > 0,
{
    lemma_filter_grows(
        sentence,
        |c: char| !is_punctuation(c),
        |c: char| !is_punctuation(c),
    );
    lemma_hard_chars_bound(matches);
    law_max_level(levels(matches, true));
    law_max_level(levels(matches, false));
    lemma_sum_bound(levels(matches, true), max_level(levels(matches, true)));
    lemma_sum_bound(levels(matches, false), max_level(levels(matches, false)));
    let (h, hn) = (f.hsk_max.numerator as int, f.hsk_mean.denominator as int);
    let (t, tn) = (f.top_max.numerator as int, f.top_mean.denominator as int);
    assert(hn * h == h * hn) by (nonlinear_arith);
    assert(tn * t == t * tn) by (nonlinear_arith);
}

proof fn lemma_word_chars_bound(matches: Seq<WordMatch>)
    ensures
        word_char_count(matches) <= char_count(matches),
    decreases matches.len(),
{
    if matches.len() > 0 {
        lemma_word_chars_bound(matches.drop_last());
        let keep = |c: char| !is_punctuation(c);
        lemma_filter_grows(matches.last().text@, keep, keep);
    }
}

/// The out-of-vocabulary ratio leaves punctuation aside: in a sentence without punctuation it is
/// the share of the characters that the matches leave over, and it is 0 where the matches have all
/// characters but punctuation.
pub proof fn law_oov_ratio(
    matches: Seq<WordMatch>,
    sentence: Seq<char>,
    f: SentenceFeatures<Ratio>,
)
    requires
        is_features(matches, sentence, f),
        matches.len() > 0,
        sentence.len() > 0,
    ensures
        word_chars(sentence) == sentence.len() ==> is_ratio(
            f.oov_ratio,
            excess(sentence.len(), char_count(matches)),
            sentence.len(),
        ),
        word_chars(sentence) <= word_char_count(matches) ==> is_ratio(
            f.oov_ratio,
            0,
            sentence.len(),
        ),
{
    lemma_word_chars_bound(matches);
}

/// In a prefix of a valid text that ends at a character boundary, a byte is a character boundary
/// if it is one in the whole text.
proof fn lemma_boundary_in_prefix(bytes: Seq<u8>, cut: int, p: int)
    requires
        valid_utf8(bytes),
        0 <= cut <= p <= bytes.len(),
        is_char_boundary(bytes, cut),
        is_char_boundary(bytes, p),
    ensures
        valid_utf8(bytes.subrange(0, p)),
        is_char_boundary(bytes.subrange(0, p), cut),
{
    let prefix = bytes.subrange(0, p);
    vstd::utf8::valid_utf8_split(bytes, p);
    if cut < p {
        assert(prefix[cut] == bytes[cut]);
        vstd::utf8::is_char_boundary_iff_not_is_continuation_byte(bytes, cut);
        vstd::utf8::is_char_boundary_iff_not_is_continuation_byte(prefix, cut);
    } else {
        vstd::utf8::is_char_boundary_start_end_of_seq(prefix);
    }
}

/// Cutting a prefix once more: the characters before and after the cut add up.
proof fn lemma_prefix_lengths(bytes: Seq<u8>, cut: int, p: int)
    requires
        valid_utf8(bytes),
        0 <= cut <= p <= bytes.len(),
        is_char_boundary(bytes, cut),
        is_char_boundary(bytes, p),
    ensures
        decode_utf8(bytes.subrange(0, p)).len() == decode_utf8(bytes.subrange(0, cut)).len()
            + decode_utf8(bytes.subrange(cut, p)).len(),
{
    let prefix = bytes.subrange(0, p);
    lemma_boundary_in_prefix(bytes, cut, p);
    vstd::utf8::decode_utf8_split(prefix, cut);
    assert(prefix.subrange(0, cut) =~= bytes.subrange(0, cut));
    assert(prefix.subrange(cut, prefix.len() as int) =~= bytes.subrange(cut, p));
}

proof fn lemma_reading_fits_prefix(
    hsk: Map<Seq<char>, u32>,
    top: Map<Seq<char>, u32>,
    sentence: Seq<char>,
    chosen: Seq<WordMatch>,
    n: int,
    p: int,
)
    requires
        is_longest_reading(hsk, top, sentence, chosen),
        0 <= n <= chosen.len(),
        0 <= p <= encode_utf8(sentence).len(),
        is_char_boundary(encode_utf8(sentence), p),
        forall|i: int| 0 <= i < n ==> (#[trigger] chosen[i]).end <= p,
    ensures
        char_count(chosen.take(n)) <= decode_utf8(encode_utf8(sentence).subrange(0, p)).len(),
    decreases n,
{
    if n > 0 {
        let bytes = encode_utf8(sentence);
        let m = chosen[n - 1];
        assert(chosen.take(n).drop_last() =~= chosen.take(n - 1));
        assert(chosen.take(n).last() == m);
        law_byte_offsets_correct(hsk, top, sentence, m);
        vstd::utf8::encode_utf8_valid_utf8(sentence);
        lemma_reading_fits_prefix(hsk, top, sentence, chosen, n - 1, m.start as int);
        lemma_prefix_lengths(bytes, m.start as int, m.end as int);
        lemma_prefix_lengths(bytes, m.end as int, p);
    }
}

/// The words of a reading do not have more characters than the sentence.
pub proof fn law_reading_fits_sentence(
    hsk: Map<Seq<char>, u32>,
    top: Map<Seq<char>, u32>,
    sentence: Seq<char>,
    chosen: Seq<WordMatch>,
)
    requires
        is_longest_reading(hsk, top, sentence, chosen),
    ensures
        char_count(chosen) <= sentence.len(),
{
    let bytes = encode_utf8(sentence);
    vstd::utf8::encode_utf8_valid_utf8(sentence);
    vstd::utf8::encode_utf8_decode_utf8(sentence);
    vstd::utf8::is_char_boundary_start_end_of_seq(bytes);
    assert(bytes.subrange(0, bytes.len() as int) =~= bytes);
    assert(chosen.take(chosen.len() as int) =~= chosen);
    lemma_reading_fits_prefix(
        hsk,
        top,
        sentence,
        chosen,
        chosen.len() as int,
        bytes.len() as int,
    );
}

proof fn lemma_same_parts(a: Seq<WordMatch>, b: Seq<WordMatch>)
    requires
        same_matches(a, b),
        a.len() > 0,
    ensures
        same_matches(a.drop_last(), b.drop_last()),
        same_match(a.last(), b.last()),
{
    assert forall|i: int| 0 <= i < a.drop_last().len() implies same_match(
        #[trigger] a.drop_last()[i],
        b.drop_last()[i],
    ) by {
        assert(same_match(a[i], b[i]));
    }
    assert(same_match(a[a.len() - 1], b[b.len() - 1]));
}

proof fn lemma_same_levels(a: Seq<WordMatch>, b: Seq<WordMatch>, is_hsk: bool)
    requires
        same_matches(a, b),
    ensures
        levels(a, is_hsk) == levels(b, is_hsk),
    decreases a.len(),
{
    if a.len() > 0 {
        lemma_same_parts(a, b);
        lemma_same_levels(a.drop_last(), b.drop_last(), is_hsk);
    }
}

proof fn lemma_same_known_count(
    a: Seq<WordMatch>,
    b: Seq<WordMatch>,
    level: u32,
    is_hsk: bool,
)
    requires
        same_matches(a, b),
    ensures
        known_count(a, level, is_hsk) == known_count(b, level, is_hsk),
    decreases a.len(),
{
    reveal(Seq::filter);
    if a.len() > 0 {
        lemma_same_parts(a, b);
        lemma_same_known_count(a.drop_last(), b.drop_last(), level, is_hsk);
    }
}

proof fn lemma_same_chars(a: Seq<WordMatch>, b: Seq<WordMatch>)
    requires
        same_matches(a, b),
    ensures
        char_count(a) == char_count(b),
        word_char_count(a) == word_char_count(b),
    decreases a.len(),
{
    if a.len() > 0 {
        lemma_same_parts(a, b);
        lemma_same_chars(a.drop_last(), b.drop_last());
    }
}

proof fn lemma_same_hard_matches(a: Seq<WordMatch>, b: Seq<WordMatch>)
    requires
        same_matches(a, b),
    ensures
        same_matches(hard_matches(a), hard_matches(b)),
    decreases a.len(),
{
    reveal(Seq::filter);
    if a.len() > 0 {
        lemma_same_parts(a, b);
        lemma_same_hard_matches(a.drop_last(), b.drop_last());
        let (x, y) = (hard_matches(a.drop_last()), hard_matches(b.drop_last()));
        assert forall|i: int| 0 <= i < hard_matches(a).len() implies same_match(
            #[trigger] hard_matches(a)[i],
            hard_matches(b)[i],
        ) by {
            if i < x.len() {
                assert(same_match(x[i], y[i]));
            }
        }
    }
}

/// Scoring is deterministic: the vocabularies and the sentence alone fix the features and the
/// labels that are computed from its reading.
pub proof fn law_scoring_deterministic(
    hsk: Map<Seq<char>, u32>,
    top: Map<Seq<char>, u32>,
    sentence: Seq<char>,
    a: Seq<WordMatch>,
    b: Seq<WordMatch>,
    f: SentenceFeatures<Ratio>,
    g: SentenceFeatures<Ratio>,
)
    requires
        is_longest_reading(hsk, top, sentence, a),
        is_longest_reading(hsk, top, sentence, b),
        is_features(a, sentence, f),
        is_features(b, sentence, g),
    ensures
        f == g,
        hsk_labels(a) == hsk_labels(b),
        top_labels(a) == top_labels(b),
{
    law_longest_reading_deterministic(hsk, top, sentence, a, b);
    lemma_same_levels(a, b, true);
    lemma_same_levels(a, b, false);
    lemma_same_chars(a, b);
    lemma_same_hard_matches(a, b);
    lemma_same_chars(hard_matches(a), hard_matches(b));
    assert forall|i: int| 0 <= i < 7 implies hsk_labels(a)[i] == hsk_labels(b)[i] by {
        lemma_same_known_count(a, b, (i + 1) as u32, true);
    }
    assert(hsk_labels(a) =~= hsk_labels(b));
    assert(top_labels(a) =~= top_labels(b));
}

/// The match `b` is of a word that is no easier than that of `a`: on the HSK scale its level is no
/// lower or it has none, and on the TOP scale its level is no lower or neither has one.
pub open spec fn is_no_easier(a: WordMatch, b: WordMatch) -> bool {
    &&& b.hsk_level is None || (a.hsk_level is Some && a.hsk_level->0 <= b.hsk_level->0)
    &&& match (a.top_level, b.top_level) {
        (Some(x), Some(y)) => x <= y,
        (None, None) => true,
        _ => false,
    }
}

proof fn lemma_no_easier(a: Seq<WordMatch>, b: Seq<WordMatch>, level: u32)
    requires
        a.len() == b.len(),
        forall|i: int| 0 <= i < a.len() ==> is_no_easier(#[trigger] a[i], b[i]),
    ensures
        known_count(b, level, true) <= known_count(a, level, true),
        levels(a, false).len() == levels(b, false).len(),
        max_level(levels(a, false)) <= max_level(levels(b, false)),
    decreases a.len(),
{
    reveal(Seq::filter);
    if a.len() > 0 {
        let (x, y) = (a.drop_last(), b.drop_last());
        assert forall|i: int| 0 <= i < x.len() implies is_no_easier(#[trigger] x[i], y[i]) by {
            assert(is_no_easier(a[i], b[i]));
        }
        lemma_no_easier(x, y, level);
        assert(is_no_easier(a[a.len() - 1], b[b.len() - 1]));
        if a.last().top_level is Some {
            let (s, t) = (levels(x, false), levels(y, false));
            assert(s.push(a.last().top_level->0).drop_last() =~= s);
            assert(t.push(b.last().top_level->0).drop_last() =~= t);
        }
    }
}

/// A harder word never makes a level readable: where each word gives way to one that is no easier,
/// no label goes from 0 to 1.
pub proof fn law_harder_words_never_help(a: Seq<WordMatch>, b: Seq<WordMatch>)
    requires
        a.len() == b.len(),
        forall|i: int| 0 <= i < a.len() ==> is_no_easier(#[trigger] a[i], b[i]),
    ensures
        forall|i: int|
            0 <= i < 7 && #[trigger] hsk_labels(b)[i] == 1 ==> hsk_labels(a)[i] == 1,
        forall|i: int|
            0 <= i < 5 && #[trigger] top_labels(b)[i] == 1 ==> top_labels(a)[i] == 1,
{
    assert forall|i: int| 0 <= i < 7 && #[trigger] hsk_labels(b)[i] == 1 implies hsk_labels(a)[i]
        == 1 by {
        lemma_no_easier(a, b, (i + 1) as u32);
    }
    lemma_no_easier(a, b, 1);
}

/// The levels of each match.
pub open spec fn level_pairs(matches: Seq<WordMatch>) -> Seq<(Option<u32>, Option<u32>)> {
    matches.map_values(|m: WordMatch| (m.hsk_level, m.top_level))
}

proof fn lemma_filter_remove<A>(list: Seq<A>, keep: spec_fn(A) -> bool, i: int)
    requires
        0 <= i < list.len(),
    ensures
        list.filter(keep).len() == list.remove(i).filter(keep).len() + (if keep(list[i]) {
            1int
        } else {
            0
        }),
    decreases list.len(),
{
    reveal(Seq::filter);
    if i < list.len() - 1 {
        lemma_filter_remove(list.drop_last(), keep, i);
        assert(list.remove(i).drop_last() =~= list.drop_last().remove(i));
        assert(list.remove(i).last() == list.last());
    } else {
        assert(list.remove(i) =~= list.drop_last());
    }
}

proof fn lemma_filter_permuted<A>(a: Seq<A>, b: Seq<A>, keep: spec_fn(A) -> bool)
    requires
        a.to_multiset() == b.to_multiset(),
    ensures
        a.filter(keep).len() == b.filter(keep).len(),
    decreases a.len(),
{
    broadcast use vstd::seq_lib::group_to_multiset_ensures;

    assert(a.len() == a.to_multiset().len() && b.len() == b.to_multiset().len());
    if a.len() == 0 {
        assert(a =~= b);
    } else {
        let last = a.len() - 1;
        assert(a.contains(a[last]));
        assert(b.to_multiset().count(a[last]) > 0);
        let i = b.index_of(a[last]);
        assert(b[i] == a[last]);
        lemma_filter_remove(a, keep, last);
        lemma_filter_remove(b, keep, i);
        lemma_filter_permuted(a.remove(last), b.remove(i), keep);
    }
}

proof fn lemma_known_by_levels(matches: Seq<WordMatch>, level: u32)
    ensures
        known_count(matches, level, true) == level_pairs(matches).filter(
            |p: (Option<u32>, Option<u32>)| p.0 is Some && p.0->0 <= level,
        ).len(),
    decreases matches.len(),
{
    reveal(Seq::filter);
    if matches.len() > 0 {
        lemma_known_by_levels(matches.drop_last(), level);
        assert(level_pairs(matches).drop_last() =~= level_pairs(matches.drop_last()));
    }
}

proof fn lemma_top_levels_permuted(a: Seq<WordMatch>, b: Seq<WordMatch>, level: u32)
    requires
        level_pairs(a).to_multiset() == level_pairs(b).to_multiset(),
        levels(a, false).contains(level),
    ensures
        levels(b, false).contains(level),
{
    broadcast use vstd::seq_lib::group_to_multiset_ensures;

    law_levels_of_matches(a, false, level);
    law_levels_of_matches(b, false, level);
    let i = choose|i: int|
        0 <= i < a.len() && #[trigger] level_of(a[i], false) == Some(level);
    let pair = level_pairs(a)[i];
    assert(level_pairs(a).contains(pair));
    assert(level_pairs(b).to_multiset().count(pair) > 0);
    let j = level_pairs(b).index_of(pair);
    assert(level_pairs(b)[j] == pair);
    assert(level_of(b[j], false) == Some(level));
}

/// Labels depend on the levels of the words alone: not on their order, nor on their texts or where
/// they stand.
pub proof fn law_labels_by_levels_alone(a: Seq<WordMatch>, b: Seq<WordMatch>)
    requires
        level_pairs(a).to_multiset() == level_pairs(b).to_multiset(),
    ensures
        hsk_labels(a) == hsk_labels(b),
        top_labels(a) == top_labels(b),
{
    broadcast use vstd::seq_lib::group_to_multiset_ensures;

    assert(level_pairs(a).len() == level_pairs(a).to_multiset().len());
    assert(level_pairs(b).len() == level_pairs(b).to_multiset().len());
    assert forall|i: int| 0 <= i < 7 implies hsk_labels(a)[i] == hsk_labels(b)[i] by {
        let level = (i + 1) as u32;
        lemma_known_by_levels(a, level);
        lemma_known_by_levels(b, level);
        lemma_filter_permuted(
            level_pairs(a),
            level_pairs(b),
            |p: (Option<u32>, Option<u32>)| p.0 is Some && p.0->0 <= level,
        );
    }
    assert(hsk_labels(a) =~= hsk_labels(b));
    let (x, y) = (levels(a, false), levels(b, false));
    law_max_level(x);
    law_max_level(y);
    if x.len() > 0 {
        lemma_top_levels_permuted(a, b, max_level(x));
        assert(y[y.index_of(max_level(x))] == max_level(x));
    }
    if y.len() > 0 {
        lemma_top_levels_permuted(b, a, max_level(y));
        assert(x[x.index_of(max_level(y))] == max_level(y));
    }
    assert(top_labels(a) =~= top_labels(b));
}

// ---------------------------------------------------------------------------
// Laws over the fields of the matches
// ---------------------------------------------------------------------------

proof fn lemma_filter_push<A>(list: Seq<A>, x: A, keep: spec_fn(A) -> bool)
    ensures
        list.push(x).filter(keep) == (if keep(x) {
            list.filter(keep).push(x)
        } else {
            list.filter(keep)
        }),
        list.filter(keep).len() <= list.len(),
    decreases list.len(),
{
    reveal(Seq::filter);
    assert(list.push(x).drop_last() =~= list);
    if list.len() > 0 {
        lemma_filter_push(list.drop_last(), list.last(), keep);
        assert(list.drop_last().push(list.last()) =~= list);
    }
}

/// The level statistics of no levels are all 0, and one more level changes them by itself alone:
/// the maximum is the larger of the two, the sum grows by the level, and a count grows by one where
/// the level is within the threshold.
pub proof fn law_level_stats_of_one_more(found: Seq<u32>, level: u32, threshold: u32)
    ensures
        max_level(Seq::empty()) == 0,
        level_sum(Seq::empty()) == 0,
        count_from(Seq::empty(), threshold) == 0,
        count_up_to(Seq::empty(), threshold) == 0,
        max_level(found.push(level)) == (if level > max_level(found) {
            level
        } else {
            max_level(found)
        }),
        level_sum(found.push(level)) == level_sum(found) + level,
        level >= threshold ==> count_from(found.push(level), threshold) == count_from(
            found,
            threshold,
        ) + 1,
        level < threshold ==> count_from(found.push(level), threshold) == count_from(
            found,
            threshold,
        ),
        level <= threshold ==> count_up_to(found.push(level), threshold) == count_up_to(
            found,
            threshold,
        ) + 1,
        level > threshold ==> count_up_to(found.push(level), threshold) == count_up_to(
            found,
            threshold,
        ),
        count_from(found, threshold) <= found.len(),
        count_up_to(found, threshold) <= found.len(),
{
    reveal(Seq::filter);
    assert(found.push(level).drop_last() =~= found);
    lemma_filter_push(found, level, |l: u32| l >= threshold);
    lemma_filter_push(found, level, |l: u32| l <= threshold);
}

/// A mean is the sum by the number: taken as often as there are levels it gives their sum, it lies
/// between the lowest and the highest of them, and of no levels it is 0.
pub proof fn law_mean(found: Seq<u32>, r: Ratio, low: u32, high: u32)
    requires
        is_mean(found, r),
        forall|i: int| 0 <= i < found.len() ==> low <= #[trigger] found[i] <= high,
    ensures
        found.len() == 0 ==> r.numerator == 0 && r.denominator == 1,
        found.len() > 0 ==> r.denominator == found.len(),
        found.len() > 0 ==> r.numerator == level_sum(found),
        found.len() > 0 ==> low * r.denominator <= r.numerator <= high * r.denominator,
{
    lemma_sum_range(found, low, high);
}

proof fn lemma_sum_range(found: Seq<u32>, low: u32, high: u32)
    requires
        forall|i: int| 0 <= i < found.len() ==> low <= #[trigger] found[i] <= high,
    ensures
        low * found.len() <= level_sum(found) <= high * found.len(),
    decreases found.len(),
{
    if found.len() > 0 {
        let front = found.drop_last();
        assert forall|i: int| 0 <= i < front.len() implies low <= #[trigger] front[i] <= high by {
            assert(front[i] == found[i]);
        }
        lemma_sum_range(front, low, high);
        assert(low <= found[found.len() - 1] <= high);
        let (n, a, b) = (front.len() as int, low as int, high as int);
        assert(a * (n + 1) == a * n + a && b * (n + 1) == b * n + b) by (nonlinear_arith);
    }
}

/// The levels of one more match: its level on the scale behind those that are there, or those alone
/// if it has none. The level on the other scale does not matter.
pub proof fn law_levels_of_one_more(matches: Seq<WordMatch>, m: WordMatch)
    ensures
        levels(Seq::empty(), true) == Seq::<u32>::empty(),
        levels(Seq::empty(), false) == Seq::<u32>::empty(),
        m.hsk_level is Some ==> levels(matches.push(m), true) == levels(matches, true).push(
            m.hsk_level->0,
        ),
        m.hsk_level is None ==> levels(matches.push(m), true) == levels(matches, true),
        m.top_level is Some ==> levels(matches.push(m), false) == levels(matches, false).push(
            m.top_level->0,
        ),
        m.top_level is None ==> levels(matches.push(m), false) == levels(matches, false),
{
    assert(matches.push(m).drop_last() =~= matches);
}

proof fn lemma_no_levels(matches: Seq<WordMatch>, is_hsk: bool)
    ensures
        levels(matches, is_hsk).len() == 0 <==> forall|i: int|
            0 <= i < matches.len() ==> (if is_hsk {
                (#[trigger] matches[i]).hsk_level
            } else {
                matches[i].top_level
            }) is None,
    decreases matches.len(),
{
    if matches.len() > 0 {
        let front = matches.drop_last();
        lemma_no_levels(front, is_hsk);
        assert forall|i: int| 0 <= i < front.len() implies front[i] == #[trigger] matches[i] by {}
        assert(matches[matches.len() - 1] == matches.last());
        if forall|i: int|
            0 <= i < matches.len() ==> (if is_hsk {
                (#[trigger] matches[i]).hsk_level
            } else {
                matches[i].top_level
            }) is None {
            assert forall|i: int| 0 <= i < front.len() implies (if is_hsk {
                (#[trigger] front[i]).hsk_level
            } else {
                front[i].top_level
            }) is None by {
                assert(front[i] == matches[i]);
            }
        }
        if levels(matches, is_hsk).len() == 0 {
            assert forall|i: int| 0 <= i < matches.len() implies (if is_hsk {
                (#[trigger] matches[i]).hsk_level
            } else {
                matches[i].top_level
            }) is None by {
                if i < front.len() {
                    assert(front[i] == matches[i]);
                }
            }
        }
    }
}

/// The features of a sentence without matches: everything is out of vocabulary, and there are no
/// levels, words or characters to speak of.
pub proof fn law_features_of_no_matches(sentence: Seq<char>, f: SentenceFeatures<Ratio>)
    requires
        is_features(Seq::empty(), sentence, f),
    ensures
        f.hsk_max == (Ratio { numerator: 0, denominator: 1 }),
        f.hsk_mean == (Ratio { numerator: 0, denominator: 1 }),
        f.hsk_count_high == 0,
        f.hsk_count_low == 0,
        f.top_max == (Ratio { numerator: 0, denominator: 1 }),
        f.top_mean == (Ratio { numerator: 0, denominator: 1 }),
        f.top_count_high == 0,
        f.total_words == 0,
        f.oov_ratio == (Ratio { numerator: 1, denominator: 1 }),
        sentence.len() <= u32::MAX ==> f.sentence_length == sentence.len(),
        f.rare_char_ratio == (Ratio { numerator: 0, denominator: 1 }),
        f.avg_word_length == (Ratio { numerator: 0, denominator: 1 }),
{
    reveal(Seq::filter);
}

/// What one more match does to the levels among the features. On each scale
/// - the maximum is the larger one of what it was and the level of the match,
/// - the mean is that of one word more, with the level of the match added to the sum,
/// - the counts grow by one where the level is in their range: 5 to 6 and 1 to 2 for HSK, 4 for TOP,
/// and a match without a level on the scale changes nothing.
pub proof fn law_level_features_of_one_more(
    matches: Seq<WordMatch>,
    m: WordMatch,
    sentence: Seq<char>,
    f: SentenceFeatures<Ratio>,
    g: SentenceFeatures<Ratio>,
)
    requires
        is_features(matches, sentence, f),
        is_features(matches.push(m), sentence, g),
    ensures
        f.hsk_max.denominator == 1 && g.hsk_max.denominator == 1,
        f.top_max.denominator == 1 && g.top_max.denominator == 1,
        m.hsk_level is None ==> {
            &&& g.hsk_max == f.hsk_max
            &&& g.hsk_mean == f.hsk_mean
            &&& g.hsk_count_high == f.hsk_count_high
            &&& g.hsk_count_low == f.hsk_count_low
        },
        m.top_level is None ==> {
            &&& g.top_max == f.top_max
            &&& g.top_mean == f.top_mean
            &&& g.top_count_high == f.top_count_high
        },
        m.hsk_level matches Some(l) ==> {
            &&& l > f.hsk_max.numerator ==> g.hsk_max.numerator == l
            &&& l <= f.hsk_max.numerator ==> g.hsk_max.numerator == f.hsk_max.numerator
            &&& g.hsk_mean.numerator == f.hsk_mean.numerator + l
            &&& if exists|i: int| 0 <= i < matches.len() && (#[trigger] matches[i]).hsk_level is Some {
                g.hsk_mean.denominator == f.hsk_mean.denominator + 1
            } else {
                g.hsk_mean.denominator == 1 && f.hsk_mean.numerator == 0
            }
        },
        m.top_level matches Some(l) ==> {
            &&& l > f.top_max.numerator ==> g.top_max.numerator == l
            &&& l <= f.top_max.numerator ==> g.top_max.numerator == f.top_max.numerator
            &&& g.top_mean.numerator == f.top_mean.numerator + l
            &&& if exists|i: int| 0 <= i < matches.len() && (#[trigger] matches[i]).top_level is Some {
                g.top_mean.denominator == f.top_mean.denominator + 1
            } else {
                g.top_mean.denominator == 1 && f.top_mean.numerator == 0
            }
        },
        matches.len() < u32::MAX ==> {
            &&& m.hsk_level == Some(5u32) || m.hsk_level == Some(6u32) ==> g.hsk_count_high
                == f.hsk_count_high + 1
            &&& m.hsk_level != Some(5u32) && m.hsk_level != Some(6u32) ==> g.hsk_count_high
                == f.hsk_count_high
            &&& m.hsk_level == Some(1u32) || m.hsk_level == Some(2u32) ==> g.hsk_count_low
                == f.hsk_count_low + 1
            &&& m.hsk_level != Some(1u32) && m.hsk_level != Some(2u32) ==> g.hsk_count_low
                == f.hsk_count_low
            &&& m.top_level == Some(4u32) ==> g.top_count_high == f.top_count_high + 1
            &&& m.top_level != Some(4u32) ==> g.top_count_high == f.top_count_high
        },
{
    let (h, t) = (levels(matches, true), levels(matches, false));
    law_levels_of_one_more(matches, m);
    lemma_no_levels(matches, true);
    lemma_no_levels(matches, false);
    law_levels_of_matches(matches, true, 0);
    law_levels_of_matches(matches, false, 0);
    if let Some(l) = m.hsk_level {
        law_level_stats_of_one_more(h, l, 0);
        lemma_filter_push(h, l, |l: u32| 5 <= l <= 6);
        lemma_filter_push(h, l, |l: u32| 1 <= l <= 2);
    }
    if let Some(l) = m.top_level {
        law_level_stats_of_one_more(t, l, 0);
        lemma_filter_push(t, l, |l: u32| l == 4);
    }
}

/// What one more match does to the other features: there is one word more, the characters of the
/// words grow by its own, and the sentence keeps its length. No character gets out of vocabulary
/// by it.
pub proof fn law_text_features_of_one_more(
    matches: Seq<WordMatch>,
    m: WordMatch,
    sentence: Seq<char>,
    f: SentenceFeatures<Ratio>,
    g: SentenceFeatures<Ratio>,
)
    requires
        is_features(matches, sentence, f),
        is_features(matches.push(m), sentence, g),
    ensures
        matches.len() < u32::MAX ==> g.total_words == f.total_words + 1,
        g.sentence_length == f.sentence_length,
        sentence.len() <= u32::MAX ==> g.sentence_length == sentence.len(),
        g.avg_word_length.numerator == f.avg_word_length.numerator + m.text@.len(),
        g.avg_word_length.denominator == matches.len() + 1,
        g.oov_ratio.numerator * f.oov_ratio.denominator <= f.oov_ratio.numerator
            * g.oov_ratio.denominator,
{
    assert(matches.push(m).drop_last() =~= matches);
    law_feature_ranges(matches, sentence, f);
    law_feature_ranges(matches.push(m), sentence, g);
    let (a, b) = (g.oov_ratio.numerator as int, f.oov_ratio.numerator as int);
    let (c, d) = (g.oov_ratio.denominator as int, f.oov_ratio.denominator as int);
    if matches.len() > 0 {
        assert(a <= b);
        assert(c == d);
        assert(a * d <= b * c) by (nonlinear_arith)
            requires
                a <= b,
                c == d,
                d >= 0,
        ;
    } else {
        assert(a * 1 <= 1 * c);
    }
}

/// The out-of-vocabulary ratio is taken of the characters of the sentence, and of a sentence
/// without punctuation it counts those that the words leave over.
pub proof fn law_oov_counts_what_is_left(
    matches: Seq<WordMatch>,
    sentence: Seq<char>,
    f: SentenceFeatures<Ratio>,
)
    requires
        is_features(matches, sentence, f),
        matches.len() > 0,
        sentence.len() > 0,
    ensures
        f.oov_ratio.denominator == sentence.len(),
        f.oov_ratio.numerator <= sentence.len(),
        f.oov_ratio.numerator == 0 || f.oov_ratio.numerator + f.avg_word_length.numerator
            <= sentence.len(),
        (forall|i: int| 0 <= i < sentence.len() ==> !is_punctuation(#[trigger] sentence[i]))
            && f.avg_word_length.numerator <= sentence.len() ==> f.oov_ratio.numerator
            + f.avg_word_length.numerator == sentence.len(),
        (forall|i: int| 0 <= i < sentence.len() ==> is_punctuation(#[trigger] sentence[i]))
            ==> f.oov_ratio.numerator == 0,
        f.avg_word_length.numerator >= sentence.len() ==> f.oov_ratio.numerator == 0,
{
    law_oov_ratio(matches, sentence, f);
    let keep = |c: char| !is_punctuation(c);
    lemma_filter_grows(sentence, keep, keep);
    if forall|i: int| 0 <= i < sentence.len() ==> !is_punctuation(#[trigger] sentence[i]) {
        lemma_filter_same(sentence, keep, |c: char| true);
        lemma_filter_all(sentence);
    }
    if forall|i: int| 0 <= i < sentence.len() ==> is_punctuation(#[trigger] sentence[i]) {
        lemma_filter_same(sentence, keep, |c: char| false);
        lemma_filter_none(sentence);
    }
}

proof fn lemma_filter_all<A>(list: Seq<A>)
    ensures
        list.filter(|x: A| true).len() == list.len(),
    decreases list.len(),
{
    reveal(Seq::filter);
    if list.len() > 0 {
        lemma_filter_all(list.drop_last());
    }
}

proof fn lemma_filter_none<A>(list: Seq<A>)
    ensures
        list.filter(|x: A| false).len() == 0,
    decreases list.len(),
{
    reveal(Seq::filter);
    if list.len() > 0 {
        lemma_filter_none(list.drop_last());
    }
}

proof fn lemma_plain_words(matches: Seq<WordMatch>)
    requires
        forall|i: int, k: int|
            0 <= i < matches.len() && 0 <= k < matches[i].text@.len() ==> !is_punctuation(
                #[trigger] matches[i].text@[k],
            ),
    ensures
        word_char_count(matches) == char_count(matches),
    decreases matches.len(),
{
    if matches.len() > 0 {
        let front = matches.drop_last();
        assert forall|i: int, k: int|
            0 <= i < front.len() && 0 <= k < front[i].text@.len() implies !is_punctuation(
            #[trigger] front[i].text@[k],
        ) by {
            assert(front[i] == matches[i]);
            assert(!is_punctuation(matches[i].text@[k]));
        }
        lemma_plain_words(front);
        let text = matches.last().text@;
        assert forall|k: int| 0 <= k < text.len() implies !is_punctuation(#[trigger] text[k]) by {
            assert(!is_punctuation(matches[matches.len() - 1].text@[k]));
        }
        lemma_filter_same(text, |c: char| !is_punctuation(c), |c: char| true);
        lemma_filter_all(text);
    }
}

/// One more character at the end of a sentence: punctuation is never out of vocabulary, and any
/// other character that no word accounts for is. (The words are without punctuation.)
pub proof fn law_oov_of_one_more_character(
    matches: Seq<WordMatch>,
    sentence: Seq<char>,
    c: char,
    f: SentenceFeatures<Ratio>,
    g: SentenceFeatures<Ratio>,
)
    requires
        is_features(matches, sentence, f),
        is_features(matches, sentence.push(c), g),
        matches.len() > 0,
        sentence.len() > 0,
        forall|i: int, k: int|
            0 <= i < matches.len() && 0 <= k < matches[i].text@.len() ==> !is_punctuation(
                #[trigger] matches[i].text@[k],
            ),
    ensures
        g.oov_ratio.denominator == f.oov_ratio.denominator + 1,
        is_punctuation(c) ==> g.oov_ratio.numerator == f.oov_ratio.numerator,
        !is_punctuation(c) && f.oov_ratio.numerator > 0 ==> g.oov_ratio.numerator
            == f.oov_ratio.numerator + 1,
        f.oov_ratio.numerator <= g.oov_ratio.numerator <= f.oov_ratio.numerator + 1,
{
    let keep = |c: char| !is_punctuation(c);
    lemma_plain_words(matches);
    lemma_filter_push(sentence, c, keep);
}

/// Which characters are rare: those of the words with HSK level 5 or more or TOP level 4 or more,
/// whatever their level on the other scale. The ratio is positive where such a word has a
/// character, it is 1 where no other word has one, and it is never more.
pub proof fn law_rare_characters(matches: Seq<WordMatch>, r: Ratio)
    requires
        is_rare_char_ratio(matches, r),
    ensures
        r.denominator > 0,
        r.numerator <= r.denominator,
        r.numerator > 0 <==> exists|i: int|
            0 <= i < matches.len() && (#[trigger] matches[i]).text@.len() > 0 && (
            (matches[i].hsk_level is Some && matches[i].hsk_level->0 >= 5) || (
            matches[i].top_level is Some && matches[i].top_level->0 >= 4)),
        r.numerator == r.denominator <==> (exists|i: int|
            0 <= i < matches.len() && (#[trigger] matches[i]).text@.len() > 0) && (forall|i: int|
            0 <= i < matches.len() && (#[trigger] matches[i]).text@.len() > 0 ==> (
            matches[i].hsk_level is Some && matches[i].hsk_level->0 >= 5) || (
            matches[i].top_level is Some && matches[i].top_level->0 >= 4)),
{
    lemma_hard_chars_bound(matches);
    lemma_hard_chars(matches);
}

proof fn lemma_hard_chars(matches: Seq<WordMatch>)
    ensures
        char_count(matches) > 0 <==> exists|i: int|
            0 <= i < matches.len() && (#[trigger] matches[i]).text@.len() > 0,
        char_count(hard_matches(matches)) > 0 <==> exists|i: int|
            0 <= i < matches.len() && (#[trigger] matches[i]).text@.len() > 0 && is_hard(matches[i]),
        char_count(hard_matches(matches)) <= char_count(matches),
        char_count(hard_matches(matches)) == char_count(matches) <==> forall|i: int|
            0 <= i < matches.len() && (#[trigger] matches[i]).text@.len() > 0 ==> is_hard(matches[i]),
    decreases matches.len(),
{
    reveal(Seq::filter);
    if matches.len() > 0 {
        let front = matches.drop_last();
        let last = matches.last();
        lemma_hard_chars(front);
        lemma_filter_push(front, last, |m: WordMatch| is_hard(m));
        assert(front.push(last) =~= matches);
        let before = hard_matches(front);
        assert(before.push(last).drop_last() =~= before);
        assert(forall|i: int| 0 <= i < front.len() ==> front[i] == #[trigger] matches[i]);
        assert(forall|i: int| 0 <= i < front.len() ==> #[trigger] front[i] == matches[i]);
        assert(matches[matches.len() - 1] == last);
    }
}

/// One more match and the rare characters: the characters of a hard word count above and below, the
/// characters of any other word below alone.
pub proof fn law_rare_characters_of_one_more(
    matches: Seq<WordMatch>,
    m: WordMatch,
    sentence: Seq<char>,
    f: SentenceFeatures<Ratio>,
    g: SentenceFeatures<Ratio>,
)
    requires
        is_features(matches, sentence, f),
        is_features(matches.push(m), sentence, g),
    ensures
        g.rare_char_ratio.numerator > 0 ==> g.rare_char_ratio.denominator
            == g.avg_word_length.numerator,
        (m.hsk_level is Some && m.hsk_level->0 >= 5) || (m.top_level is Some && m.top_level->0 >= 4)
            ==> g.rare_char_ratio.numerator == f.rare_char_ratio.numerator + m.text@.len(),
        !((m.hsk_level is Some && m.hsk_level->0 >= 5) || (m.top_level is Some && m.top_level->0
            >= 4)) ==> g.rare_char_ratio.numerator == f.rare_char_ratio.numerator,
{
    reveal(Seq::filter);
    lemma_filter_push(matches, m, |m: WordMatch| is_hard(m));
    let before = hard_matches(matches);
    assert(before.push(m).drop_last() =~= before);
    assert(matches.push(m).drop_last() =~= matches);
    lemma_hard_chars_bound(matches);
    lemma_hard_chars_bound(matches.push(m));
}

/// Raising a level of a word never lowers the ratio of rare characters.
pub proof fn law_harder_words_are_no_less_rare(
    a: Seq<WordMatch>,
    b: Seq<WordMatch>,
    r: Ratio,
    q: Ratio,
)
    requires
        is_rare_char_ratio(a, r),
        is_rare_char_ratio(b, q),
        a.len() == b.len(),
        forall|i: int|
            0 <= i < a.len() ==> {
                &&& (#[trigger] a[i]).text@.len() == b[i].text@.len()
                &&& a[i].hsk_level is Some ==> b[i].hsk_level is Some && a[i].hsk_level->0
                    <= b[i].hsk_level->0
                &&& a[i].top_level is Some ==> b[i].top_level is Some && a[i].top_level->0
                    <= b[i].top_level->0
            },
    ensures
        r.numerator * q.denominator <= q.numerator * r.denominator,
{
    lemma_no_less_rare(a, b);
    law_rare_characters(a, r);
    law_rare_characters(b, q);
    lemma_hard_chars(a);
    lemma_hard_chars(b);
    let (n, d, k, e) = (
        r.numerator as int,
        r.denominator as int,
        q.numerator as int,
        q.denominator as int,
    );
    if n > 0 {
        assert(d == e);
        assert(n <= k);
        assert(n * e <= k * d) by (nonlinear_arith)
            requires
                n <= k,
                d == e,
                d > 0,
        ;
    } else {
        assert(0 * e <= k * d) by (nonlinear_arith)
            requires
                k >= 0,
                d > 0,
        ;
    }
}

proof fn lemma_no_less_rare(a: Seq<WordMatch>, b: Seq<WordMatch>)
    requires
        a.len() == b.len(),
        forall|i: int|
            0 <= i < a.len() ==> {
                &&& (#[trigger] a[i]).text@.len() == b[i].text@.len()
                &&& a[i].hsk_level is Some ==> b[i].hsk_level is Some && a[i].hsk_level->0
                    <= b[i].hsk_level->0
                &&& a[i].top_level is Some ==> b[i].top_level is Some && a[i].top_level->0
                    <= b[i].top_level->0
            },
    ensures
        char_count(a) == char_count(b),
        char_count(hard_matches(a)) <= char_count(hard_matches(b)),
    decreases a.len(),
{
    reveal(Seq::filter);
    if a.len() > 0 {
        let (x, y) = (a.drop_last(), b.drop_last());
        assert forall|i: int| 0 <= i < x.len() implies {
            &&& (#[trigger] x[i]).text@.len() == y[i].text@.len()
            &&& x[i].hsk_level is Some ==> y[i].hsk_level is Some && x[i].hsk_level->0
                <= y[i].hsk_level->0
            &&& x[i].top_level is Some ==> y[i].top_level is Some && x[i].top_level->0
                <= y[i].top_level->0
        } by {
            assert(x[i] == a[i] && y[i] == b[i]);
        }
        lemma_no_less_rare(x, y);
        assert(a[a.len() - 1] == a.last() && b[b.len() - 1] == b.last());
        lemma_filter_push(x, a.last(), |m: WordMatch| is_hard(m));
        lemma_filter_push(y, b.last(), |m: WordMatch| is_hard(m));
        assert(x.push(a.last()) =~= a);
        assert(y.push(b.last()) =~= b);
        assert(hard_matches(x).push(a.last()).drop_last() =~= hard_matches(x));
        assert(hard_matches(y).push(b.last()).drop_last() =~= hard_matches(y));
    }
}

/// One more match and the coverage: there is one word more, and one known word more exactly where
/// the match has a level on the scale in question and the level is no higher than the learner's.
pub proof fn law_coverage_of_one_more(
    matches: Seq<WordMatch>,
    m: WordMatch,
    level: u32,
    is_hsk: bool,
    r: Ratio,
    q: Ratio,
)
    requires
        is_coverage(matches, level, is_hsk, r),
        is_coverage(matches.push(m), level, is_hsk, q),
    ensures
        matches.len() == 0 ==> r.numerator == 0 && r.denominator == 1,
        matches.len() > 0 ==> r.denominator == matches.len(),
        q.denominator == matches.len() + 1,
        is_hsk && m.hsk_level is Some && m.hsk_level->0 <= level ==> q.numerator == r.numerator + 1,
        is_hsk && !(m.hsk_level is Some && m.hsk_level->0 <= level) ==> q.numerator == r.numerator,
        !is_hsk && m.top_level is Some && m.top_level->0 <= level ==> q.numerator == r.numerator + 1,
        !is_hsk && !(m.top_level is Some && m.top_level->0 <= level) ==> q.numerator == r.numerator,
{
    reveal(Seq::filter);
    lemma_filter_push(matches, m, |m: WordMatch| knows(m, level, is_hsk));
}

/// Each scale stands for itself: the coverage on the TOP scale does not change with the HSK levels
/// of the words, nor the coverage on the HSK scale with their TOP levels. A word without a level on
/// a scale is known at no level of it.
pub proof fn law_coverage_of_one_scale(
    a: Seq<WordMatch>,
    b: Seq<WordMatch>,
    level: u32,
    is_hsk: bool,
    r: Ratio,
    q: Ratio,
)
    requires
        is_coverage(a, level, is_hsk, r),
        is_coverage(b, level, is_hsk, q),
        a.len() == b.len(),
        is_hsk ==> forall|i: int|
            0 <= i < a.len() ==> (#[trigger] a[i]).hsk_level == b[i].hsk_level,
        !is_hsk ==> forall|i: int|
            0 <= i < a.len() ==> (#[trigger] a[i]).top_level == b[i].top_level,
    ensures
        r == q,
        is_hsk && (forall|i: int| 0 <= i < a.len() ==> (#[trigger] a[i]).hsk_level is None)
            ==> r.numerator == 0,
        !is_hsk && (forall|i: int| 0 <= i < a.len() ==> (#[trigger] a[i]).top_level is None)
            ==> r.numerator == 0,
    decreases a.len(),
{
    reveal(Seq::filter);
    if a.len() > 0 {
        let (x, y) = (a.drop_last(), b.drop_last());
        assert forall|i: int| 0 <= i < x.len() implies x[i] == #[trigger] a[i] && y[i] == b[i] by {}
        let n = if x.len() == 0 {
            1u128
        } else {
            (r.denominator - 1) as u128
        };
        law_coverage_monotonic(x, level, level, is_hsk);
        law_coverage_monotonic(y, level, level, is_hsk);
        let u = Ratio { numerator: known_count(x, level, is_hsk) as u128, denominator: n };
        let v = Ratio { numerator: known_count(y, level, is_hsk) as u128, denominator: n };
        assert forall|i: int| 0 <= i < x.len() && is_hsk implies (#[trigger] x[i]).hsk_level
            == y[i].hsk_level by {
            assert(a[i].hsk_level == b[i].hsk_level);
        }
        assert forall|i: int| 0 <= i < x.len() && !is_hsk implies (#[trigger] x[i]).top_level
            == y[i].top_level by {
            assert(a[i].top_level == b[i].top_level);
        }
        law_coverage_of_one_scale(x, y, level, is_hsk, u, v);
        assert(x.push(a.last()) =~= a);
        assert(y.push(b.last()) =~= b);
        law_coverage_of_one_more(x, a.last(), level, is_hsk, u, r);
        law_coverage_of_one_more(y, b.last(), level, is_hsk, v, q);
        assert(a[a.len() - 1] == a.last() && b[b.len() - 1] == b.last());
        if is_hsk && (forall|i: int| 0 <= i < a.len() ==> (#[trigger] a[i]).hsk_level is None) {
            assert forall|i: int| 0 <= i < x.len() implies (#[trigger] x[i]).hsk_level is None by {
                assert(a[i].hsk_level is None);
            }
        }
        if !is_hsk && (forall|i: int| 0 <= i < a.len() ==> (#[trigger] a[i]).top_level is None) {
            assert forall|i: int| 0 <= i < x.len() implies (#[trigger] x[i]).top_level is None by {
                assert(a[i].top_level is None);
            }
        }
    }
}

/// There are seven HSK labels and five TOP labels, each of them 0 or 1. An HSK label is 1 exactly
/// where nine in ten of the words have an HSK level and it is no higher; a TOP label from 1 to 4 is
/// 1 exactly where some word has a TOP level and, up to label 3, none has a higher one.
pub proof fn law_label_rules(matches: Seq<WordMatch>, level: u32)
    ensures
        hsk_labels(matches).len() == 7,
        top_labels(matches).len() == 5,
        1 <= level <= 7 ==> (hsk_labels(matches)[level - 1] == 1 <==> matches.len() > 0 && 10
            * matches.filter(
            |m: WordMatch| m.hsk_level is Some && m.hsk_level->0 <= level,
        ).len() >= 9 * matches.len()),
        1 <= level <= 7 ==> hsk_labels(matches)[level - 1] == 0 || hsk_labels(matches)[level - 1]
            == 1,
        1 <= level <= 5 ==> top_labels(matches)[level - 1] == 0 || top_labels(matches)[level - 1]
            == 1,
        top_labels(matches)[4] == 1,
        top_labels(matches)[3] == 1 <==> exists|i: int|
            0 <= i < matches.len() && (#[trigger] matches[i]).top_level is Some,
        1 <= level <= 3 ==> (top_labels(matches)[level - 1] == 1 <==> (exists|i: int|
            0 <= i < matches.len() && (#[trigger] matches[i]).top_level is Some) && (forall|i: int|
            0 <= i < matches.len() && (#[trigger] matches[i]).top_level is Some
                ==> matches[i].top_level->0 <= level)),
{
    lemma_filter_same(
        matches,
        |m: WordMatch| knows(m, level, true),
        |m: WordMatch| m.hsk_level is Some && m.hsk_level->0 <= level,
    );
    let found = levels(matches, false);
    lemma_no_levels(matches, false);
    law_max_level(found);
    if found.len() > 0 {
        let max = max_level(found);
        law_levels_of_matches(matches, false, max);
        let i = choose|i: int|
            0 <= i < matches.len() && #[trigger] level_of(matches[i], false) == Some(max);
        assert(matches[i].top_level == Some(max));
        assert forall|i: int|
            0 <= i < matches.len() && (#[trigger] matches[i]).top_level is Some implies matches[i].top_level->0
            <= max by {
            let l = matches[i].top_level->0;
            law_levels_of_matches(matches, false, l);
            assert(level_of(matches[i], false) == Some(l));
            assert(found[found.index_of(l)] == l);
        }
    }
}

/// Closure keeps the number of labels, sets a label to 1 exactly where it or one before it is 1, and
/// leaves every other label as it is.
pub proof fn law_closure_rule(labels: Seq<u32>, i: int)
    requires
        0 <= i < labels.len(),
    ensures
        monotonic_closure(labels).len() == labels.len(),
        monotonic_closure(labels)[i] == 1 <==> exists|j: int|
            0 <= j <= i && #[trigger] labels[j] == 1,
        monotonic_closure(labels)[i] != 1 ==> monotonic_closure(labels)[i] == labels[i],
{
    let front = labels.take(i + 1);
    if front.contains(1u32) {
        assert(labels[front.index_of(1u32)] == 1);
    }
    if exists|j: int| 0 <= j <= i && #[trigger] labels[j] == 1 {
        let j = choose|j: int| 0 <= j <= i && #[trigger] labels[j] == 1;
        assert(front[j] == 1);
    }
}

/// One more word accounts for its own characters and no others: no more of them leave the characters
/// that are out of vocabulary, and exactly as many where the word is without punctuation and some
/// characters are still left. An empty sentence has nothing out of vocabulary.
pub proof fn law_oov_of_one_more_word(
    matches: Seq<WordMatch>,
    m: WordMatch,
    sentence: Seq<char>,
    f: SentenceFeatures<Ratio>,
    g: SentenceFeatures<Ratio>,
)
    requires
        is_features(matches, sentence, f),
        is_features(matches.push(m), sentence, g),
        matches.len() > 0,
    ensures
        sentence.len() == 0 ==> f.oov_ratio.numerator == 0 && f.oov_ratio.denominator == 1,
        g.oov_ratio.denominator == f.oov_ratio.denominator,
        g.oov_ratio.numerator <= f.oov_ratio.numerator <= g.oov_ratio.numerator + m.text@.len(),
        (forall|k: int| 0 <= k < m.text@.len() ==> !is_punctuation(#[trigger] m.text@[k]))
            && g.oov_ratio.numerator > 0 ==> f.oov_ratio.numerator == g.oov_ratio.numerator
            + m.text@.len(),
{
    let keep = |c: char| !is_punctuation(c);
    assert(matches.push(m).drop_last() =~= matches);
    lemma_filter_grows(m.text@, keep, keep);
    if forall|k: int| 0 <= k < m.text@.len() ==> !is_punctuation(#[trigger] m.text@[k]) {
        lemma_filter_same(m.text@, keep, |c: char| true);
        lemma_filter_all(m.text@);
    }
}

} // verus!
