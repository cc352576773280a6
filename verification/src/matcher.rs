//! Word matching: an Aho-Corasick automaton together with the vocabularies.
use crate::types::WordMatch;
use crate::vocab::{vocab_contains, vocab_get, vocab_len, vocab_words};
use aho_corasick::AhoCorasick;
use rustc_hash::FxHashMap;
use vstd::prelude::*;

verus! {

use crate::vocab::{entries, lemma_filter_part, level_in, lists_words, texts};
use vstd::utf8::{decode_utf8, encode_utf8, is_char_boundary};

/// The automaton; what it was built from is [`standard_patterns`].
#[verifier::external_type_specification]
#[verifier::external_body]
pub struct ExAhoCorasick(aho_corasick::AhoCorasick);

/// Why an automaton could not be built; nothing is said of it.
#[verifier::external_type_specification]
#[verifier::external_body]
pub struct ExBuildError(aho_corasick::BuildError);

/// The patterns of an automaton that was built with the default options, which give it standard
/// match semantics, in order; `None` for an automaton that was built with any others.
pub uninterp spec fn standard_patterns(automaton: AhoCorasick) -> Option<Seq<Seq<char>>>;

/// Whether an automaton for these patterns can be built: the crate's limits on the number and the
/// size of patterns and states decide.
pub uninterp spec fn automaton_builds(patterns: Seq<Seq<char>>) -> bool;

/// The bytes of `word` are those of `sentence` from byte `start` up to byte `end`.
pub open spec fn bytes_at(word: Seq<char>, sentence: Seq<char>, start: int, end: int) -> bool {
    &&& 0 <= start <= end <= encode_utf8(sentence).len()
    &&& encode_utf8(sentence).subrange(start, end) == encode_utf8(word)
}

/// `word` stands in `sentence` from byte `start` up to byte `end`, between two characters each.
pub open spec fn occurs_at(word: Seq<char>, sentence: Seq<char>, start: int, end: int) -> bool {
    &&& bytes_at(word, sentence, start, end)
    &&& is_char_boundary(encode_utf8(sentence), start)
    &&& is_char_boundary(encode_utf8(sentence), end)
}

/// The order of matches: by where they end, then by where they begin.
pub open spec fn precedes(start1: int, end1: int, start2: int, end2: int) -> bool {
    end1 < end2 || (end1 == end2 && start1 < start2)
}

/// `hits` holds every occurrence of every pattern as pattern index, start and end, each once, in
/// the order of [`precedes`].
pub open spec fn is_overlapping_report(
    patterns: Seq<Seq<char>>,
    sentence: Seq<char>,
    hits: Seq<(usize, usize, usize)>,
) -> bool {
    &&& forall|k: int|
        0 <= k < hits.len() ==> (#[trigger] hits[k]).0 < patterns.len() && bytes_at(
            patterns[hits[k].0 as int],
            sentence,
            hits[k].1 as int,
            hits[k].2 as int,
        )
    &&& forall|p: int, start: int, end: int|
        0 <= p < patterns.len() && #[trigger] bytes_at(patterns[p], sentence, start, end)
            ==> exists|k: int|
            0 <= k < hits.len() && (#[trigger] hits[k]).0 == p && hits[k].1 == start && hits[k].2
                == end
    &&& forall|j: int, k: int|
        0 <= j < k < hits.len() ==> precedes(
            (#[trigger] hits[j]).1 as int,
            hits[j].2 as int,
            (#[trigger] hits[k]).1 as int,
            hits[k].2 as int,
        )
}

/// `AhoCorasick::new`: an automaton with standard semantics for the given patterns, or the error
/// of a build that went over one of the crate's limits.
#[verifier::external_body]
fn build_automaton(patterns: &Vec<String>) -> (r: Result<AhoCorasick, aho_corasick::BuildError>)
    ensures
        r is Ok <==> automaton_builds(texts(patterns@)),
        r matches Ok(automaton) ==> standard_patterns(automaton) == Some(texts(patterns@)),
{
    AhoCorasick::new(patterns)
}

/// `AhoCorasick::find_overlapping_iter`: all places where the bytes of a pattern stand. The automaton walks the
/// sentence byte by byte and at each byte reports the patterns that end there, longest first. It
/// panics for an automaton without standard semantics, and it can report an empty pattern more
/// than once at one place; both are left out.
#[verifier::external_body]
fn overlapping_hits(automaton: &AhoCorasick, sentence: &str) -> (hits: Vec<(usize, usize, usize)>)
    requires
        standard_patterns(*automaton) is Some,
        standard_patterns(*automaton)->0.no_duplicates(),
        !standard_patterns(*automaton)->0.contains(Seq::<char>::empty()),
    ensures
        is_overlapping_report(standard_patterns(*automaton)->0, sentence@, hits@),
{
    automaton.find_overlapping_iter(sentence).map(
        |m| (m.pattern().as_usize(), m.start(), m.end()),
    ).collect()
}

/// Why a matcher could not be built.
#[derive(Debug)]
pub enum MatcherError {
    /// The vocabularies are too large for the automaton.
    Automaton(aho_corasick::BuildError),
}

/// One of the vocabularies holds `word`.
pub open spec fn is_known(
    hsk: Map<Seq<char>, u32>,
    top: Map<Seq<char>, u32>,
    word: Seq<char>,
) -> bool {
    hsk.contains_key(word) || top.contains_key(word)
}

/// The patterns of a matcher: the words of the HSK vocabulary, then those words of the TOP
/// vocabulary that the HSK vocabulary lacks, without the empty word.
pub open spec fn pattern_list(
    hsk_words: Seq<Seq<char>>,
    top_words: Seq<Seq<char>>,
) -> Seq<Seq<char>> {
    hsk_words.filter(|w: Seq<char>| w.len() > 0) + top_words.filter(
        |w: Seq<char>| w.len() > 0 && !hsk_words.contains(w),
    )
}

/// `patterns` lists each non-empty word of the two vocabularies once.
pub open spec fn covers_vocabs(
    patterns: Seq<Seq<char>>,
    hsk: Map<Seq<char>, u32>,
    top: Map<Seq<char>, u32>,
) -> bool {
    &&& patterns.no_duplicates()
    &&& forall|w: Seq<char>| #[trigger]
        patterns.contains(w) <==> w.len() > 0 && is_known(hsk, top, w)
}

/// `m` is a correct match in `sentence`: a known word at the place where it stands, with the
/// levels that the vocabularies give to it.
pub open spec fn is_match(
    hsk: Map<Seq<char>, u32>,
    top: Map<Seq<char>, u32>,
    sentence: Seq<char>,
    m: WordMatch,
) -> bool {
    &&& is_known(hsk, top, m.text@)
    &&& occurs_at(m.text@, sentence, m.start as int, m.end as int)
    &&& m.hsk_level == level_in(hsk, m.text@)
    &&& m.top_level == level_in(top, m.text@)
}

/// `matches` holds a match of `word` from `start` to `end`.
pub open spec fn reports(
    matches: Seq<WordMatch>,
    word: Seq<char>,
    start: int,
    end: int,
) -> bool {
    exists|i: int|
        0 <= i < matches.len() && (#[trigger] matches[i]).text@ == word && matches[i].start == start
            && matches[i].end == end
}

/// The matches stand in the order of [`precedes`].
pub open spec fn in_order(matches: Seq<WordMatch>) -> bool {
    forall|i: int, j: int|
        0 <= i < j < matches.len() ==> precedes(
            (#[trigger] matches[i]).start as int,
            matches[i].end as int,
            (#[trigger] matches[j]).start as int,
            matches[j].end as int,
        )
}

/// `matches` holds every occurrence of every known word in `sentence`, overlapping ones included,
/// and nothing else, in the order of [`precedes`].
pub open spec fn is_all_matches(
    hsk: Map<Seq<char>, u32>,
    top: Map<Seq<char>, u32>,
    sentence: Seq<char>,
    matches: Seq<WordMatch>,
) -> bool {
    &&& forall|i: int|
        0 <= i < matches.len() ==> is_match(hsk, top, sentence, #[trigger] matches[i])
    &&& forall|word: Seq<char>, start: int, end: int|
        is_known(hsk, top, word) && #[trigger] occurs_at(word, sentence, start, end) ==> reports(
            matches,
            word,
            start,
            end,
        )
    &&& in_order(matches)
}

/// A match that begins at `start` yields to `chosen`: it begins where `chosen` begins, or inside
/// of it.
pub open spec fn yields(start: int, chosen: WordMatch) -> bool {
    chosen.start <= start && (start < chosen.end || start == chosen.start)
}

/// `start` is a place at which a match yields to one of the chosen ones.
#[verifier::opaque]
pub open spec fn is_taken(start: int, chosen: Seq<WordMatch>) -> bool {
    exists|i: int| 0 <= i < chosen.len() && yields(start, #[trigger] chosen[i])
}

/// The matches follow each other without overlap, one at most at each place.
pub open spec fn is_disjoint(matches: Seq<WordMatch>) -> bool {
    forall|i: int, j: int|
        0 <= i < j < matches.len() ==> (#[trigger] matches[i]).start < (#[trigger] matches[j]).start
            && matches[i].end <= matches[j].start
}

/// `chosen` is the greedy choice from `all`, left to right and longest first: it consists of
/// matches that do not overlap, each of them the longest at its place, and a match is left out
/// only if it yields to one of them.
pub open spec fn is_greedy_choice(all: Seq<WordMatch>, chosen: Seq<WordMatch>) -> bool {
    &&& forall|i: int| 0 <= i < chosen.len() ==> all.contains(#[trigger] chosen[i])
    &&& is_disjoint(chosen)
    &&& forall|i: int, k: int|
        0 <= i < chosen.len() && 0 <= k < all.len() && (#[trigger] all[k]).start == (
        #[trigger] chosen[i]).start ==> all[k].end <= chosen[i].end
    &&& forall|k: int| 0 <= k < all.len() ==> is_taken((#[trigger] all[k]).start as int, chosen)
}

/// `chosen` is the greedy longest-match reading of `sentence`: correct matches that do not
/// overlap, each of them the longest known word at its place, and every occurrence of a known
/// word that is left out yields to one of them.
pub open spec fn is_longest_reading(
    hsk: Map<Seq<char>, u32>,
    top: Map<Seq<char>, u32>,
    sentence: Seq<char>,
    chosen: Seq<WordMatch>,
) -> bool {
    &&& forall|i: int| 0 <= i < chosen.len() ==> is_match(hsk, top, sentence, #[trigger] chosen[i])
    &&& is_disjoint(chosen)
    &&& forall|i: int, word: Seq<char>, start: int, end: int|
        0 <= i < chosen.len() && is_known(hsk, top, word) && #[trigger] occurs_at(
            word,
            sentence,
            start,
            end,
        ) && start == (#[trigger] chosen[i]).start ==> end <= chosen[i].end
    &&& forall|word: Seq<char>, start: int, end: int|
        is_known(hsk, top, word) && #[trigger] occurs_at(word, sentence, start, end) ==> is_taken(
            start,
            chosen,
        )
}

/// The matches at the given indices.
spec fn picked(all: Seq<WordMatch>, indices: Seq<usize>) -> Seq<WordMatch> {
    indices.map_values(|i: usize| all[i as int])
}

proof fn lemma_taken(start: int, chosen: Seq<WordMatch>, i: int)
    requires
        0 <= i < chosen.len(),
        yields(start, chosen[i]),
    ensures
        is_taken(start, chosen),
{
    reveal(is_taken);
}

proof fn lemma_taken_by(start: int, chosen: Seq<WordMatch>) -> (i: int)
    requires
        is_taken(start, chosen),
    ensures
        0 <= i < chosen.len(),
        yields(start, chosen[i]),
{
    reveal(is_taken);
    choose|i: int| 0 <= i < chosen.len() && yields(start, #[trigger] chosen[i])
}

/// What the greedy choice from the first `k` matches is made of: matches before `k`, of which the
/// first `keep` begin before match `k` and the others do not.
spec fn is_greedy_state(all: Seq<WordMatch>, k: int, indices: Seq<usize>, keep: int) -> bool {
    &&& in_order(all)
    &&& forall|i: int| 0 <= i < all.len() ==> (#[trigger] all[i]).start <= all[i].end
    &&& 0 <= k < all.len() <= usize::MAX
    &&& forall|i: int| 0 <= i < indices.len() ==> #[trigger] indices[i] < k
    &&& is_greedy_choice(all.take(k), picked(all, indices))
    &&& 0 <= keep <= indices.len()
    &&& forall|i: int| 0 <= i < keep ==> all[#[trigger] indices[i] as int].start < all[k].start
    &&& forall|i: int|
        keep <= i < indices.len() ==> all[#[trigger] indices[i] as int].start >= all[k].start
}

/// The next match begins inside of a chosen one: the choice stays.
proof fn lemma_greedy_skip(all: Seq<WordMatch>, k: int, indices: Seq<usize>, keep: int)
    requires
        is_greedy_state(all, k, indices, keep),
        keep > 0,
        all[indices[keep - 1] as int].end > all[k].start,
    ensures
        is_greedy_choice(all.take(k + 1), picked(all, indices)),
{
    let before = all.take(k);
    let after = all.take(k + 1);
    let choice = picked(all, indices);
    let m = all[k];
    assert(after[k] == m);
    assert forall|i: int| 0 <= i < indices.len() implies after.contains(#[trigger] choice[i]) by {
        assert(after[indices[i] as int] == choice[i]);
    }
    lemma_taken(m.start as int, choice, keep - 1);
    assert forall|i: int| 0 <= i < choice.len() implies (#[trigger] choice[i]).start != m.start by {
        if i >= keep {
            assert(choice[keep - 1].end <= choice[i].start);
        } else {
            assert(all[indices[i] as int].start < m.start);
        }
    }
    assert forall|j: int| 0 <= j < after.len() implies is_taken(
        (#[trigger] after[j]).start as int,
        choice,
    ) by {
        if j < k {
            assert(before[j] == after[j]);
        }
    }
    assert forall|i: int, j: int|
        0 <= i < choice.len() && 0 <= j < after.len() && (#[trigger] after[j]).start == (
        #[trigger] choice[i]).start implies after[j].end <= choice[i].end by {
        if j < k {
            assert(before[j] == after[j]);
        }
    }
}

/// The next match begins behind the chosen ones that begin before it: it takes the place of the
/// other chosen ones.
proof fn lemma_greedy_take(all: Seq<WordMatch>, k: int, indices: Seq<usize>, keep: int)
    requires
        is_greedy_state(all, k, indices, keep),
        keep == 0 || all[indices[keep - 1] as int].end <= all[k].start,
    ensures
        is_greedy_choice(all.take(k + 1), picked(all, indices.take(keep).push(k as usize))),
{
    let before = all.take(k);
    let after = all.take(k + 1);
    let old_choice = picked(all, indices);
    let new_indices = indices.take(keep).push(k as usize);
    let new_choice = picked(all, new_indices);
    let m = all[k];
    assert(after[k] == m);
    assert(new_indices[keep] == k);
    assert(new_choice[keep] == m);
    assert forall|i: int| 0 <= i < keep implies #[trigger] new_choice[i] == old_choice[i]
        && after.contains(new_choice[i]) && new_choice[i].start < m.start && new_choice[i].end
        <= m.start by {
        assert(new_indices[i] == indices[i]);
        assert(after[indices[i] as int] == new_choice[i]);
        if i < keep - 1 {
            assert(old_choice[i].end <= old_choice[keep - 1].start);
            assert(all[indices[keep - 1] as int].start < m.start);
        }
    }
    assert forall|i: int| 0 <= i < new_choice.len() implies after.contains(
        #[trigger] new_choice[i],
    ) by {
        if i == keep {
            assert(after[k] == new_choice[i]);
        }
    }
    assert(is_disjoint(new_choice)) by {
        assert forall|i: int, j: int| 0 <= i < j < new_choice.len() implies (
        #[trigger] new_choice[i]).start < (#[trigger] new_choice[j]).start && new_choice[i].end
            <= new_choice[j].start by {
            if j < keep {
                assert(new_choice[i] == old_choice[i] && new_choice[j] == old_choice[j]);
            }
        }
    }
    assert forall|i: int, j: int|
        0 <= i < new_choice.len() && 0 <= j < after.len() && (#[trigger] after[j]).start == (
        #[trigger] new_choice[i]).start implies after[j].end <= new_choice[i].end by {
        if j < k {
            assert(before[j] == after[j]);
            assert(precedes(
                all[j].start as int,
                all[j].end as int,
                all[k].start as int,
                all[k].end as int,
            ));
        }
        if i < keep {
            assert(new_choice[i] == old_choice[i]);
        }
    }
    assert forall|j: int| 0 <= j < after.len() implies is_taken(
        (#[trigger] after[j]).start as int,
        new_choice,
    ) by {
        let start = after[j].start as int;
        if j == k {
            lemma_taken(start, new_choice, keep);
        } else {
            assert(before[j] == after[j]);
            let i = lemma_taken_by(start, old_choice);
            if i < keep {
                assert(new_choice[i] == old_choice[i]);
                lemma_taken(start, new_choice, i);
            } else {
                let b = indices[i] as int;
                assert(all[b].start >= m.start);
                assert(precedes(
                    all[b].start as int,
                    all[b].end as int,
                    all[k].start as int,
                    all[k].end as int,
                ));
                lemma_taken(start, new_choice, keep);
            }
        }
    }
}

/// Choose non-overlapping matches greedily, left to right and longest first.
pub fn choose_non_overlapping(all_matches: &Vec<WordMatch>) -> (result: Vec<WordMatch>)
    requires
        in_order(all_matches@),
        forall|i: int|
            0 <= i < all_matches.len() ==> (#[trigger] all_matches[i]).start <= all_matches[i].end,
    ensures
        is_greedy_choice(all_matches@, result@),
{
    let ghost all = all_matches@;
    let mut indices: Vec<usize> = Vec::new();
    for k in 0..all_matches.len()
        invariant
            all == all_matches@,
            in_order(all),
            forall|i: int| 0 <= i < all.len() ==> (#[trigger] all[i]).start <= all[i].end,
            forall|i: int| 0 <= i < indices.len() ==> #[trigger] indices[i] < k,
            is_greedy_choice(all.take(k as int), picked(all, indices@)),
    {
        let start: usize = all_matches[k].start;
        let mut keep: usize = indices.len();
        proof {
            assert forall|i: int, j: int| 0 <= i <= j < indices.len() implies all[
                #[trigger] indices[i] as int].start <= all[#[trigger] indices[j] as int].start by {
                if i < j {
                    assert(picked(all, indices@)[i].start < picked(all, indices@)[j].start);
                }
            }
        }
        while keep > 0 && all_matches[indices[keep - 1]].start >= start
            invariant
                all == all_matches@,
                k < all_matches.len(),
                start == all[k as int].start,
                keep <= indices.len(),
                forall|i: int| 0 <= i < indices.len() ==> #[trigger] indices[i] < k,
                forall|i: int|
                    keep <= i < indices.len() ==> all[#[trigger] indices[i] as int].start >= start,
            decreases keep,
        {
            keep = keep - 1;
        }
        proof {
            assert forall|i: int| 0 <= i < keep implies all[#[trigger] indices[i] as int].start
                < start by {
                assert(all[indices[i] as int].start <= all[indices[keep - 1] as int].start);
            }
            if keep == 0 || all[indices[keep - 1] as int].end <= start {
                lemma_greedy_take(all, k as int, indices@, keep as int);
            } else {
                lemma_greedy_skip(all, k as int, indices@, keep as int);
            }
        }
        if keep == 0 || all_matches[indices[keep - 1]].end <= start {
            indices.truncate(keep);
            indices.push(k);
        }
    }
    assert(all.take(all.len() as int) =~= all);
    let mut result: Vec<WordMatch> = Vec::new();
    for i in 0..indices.len()
        invariant
            all == all_matches@,
            forall|i: int| 0 <= i < indices.len() ==> #[trigger] indices[i] < all.len(),
            result@ == picked(all, indices@).take(i as int),
    {
        let m: &WordMatch = &all_matches[indices[i]];
        result.push(
            WordMatch {
                text: m.text.clone(),
                hsk_level: m.hsk_level,
                top_level: m.top_level,
                start: m.start,
                end: m.end,
            },
        );
        assert(picked(all, indices@).take(i + 1) =~= picked(all, indices@).take(i as int).push(
            all[indices[i as int] as int],
        ));
    }
    assert(picked(all, indices@).take(indices.len() as int) =~= picked(all, indices@));
    result
}

proof fn lemma_reports_push(matches: Seq<WordMatch>, m: WordMatch)
    ensures
        reports(matches.push(m), m.text@, m.start as int, m.end as int),
        forall|word: Seq<char>, start: int, end: int|
            reports(matches, word, start, end) ==> #[trigger] reports(
                matches.push(m),
                word,
                start,
                end,
            ),
{
    assert(matches.push(m)[matches.len() as int] == m);
    assert forall|word: Seq<char>, start: int, end: int| reports(
        matches,
        word,
        start,
        end,
    ) implies #[trigger] reports(matches.push(m), word, start, end) by {
        let i = choose|i: int|
            0 <= i < matches.len() && (#[trigger] matches[i]).text@ == word && matches[i].start
                == start && matches[i].end == end;
        assert(matches.push(m)[i] == matches[i]);
    }
}

/// The empty text has no bytes, and no other text has none.
proof fn lemma_empty_encoding(word: Seq<char>)
    ensures
        encode_utf8(word).len() == 0 <==> word.len() == 0,
{
    vstd::utf8::encode_utf8_decode_utf8(word);
    vstd::utf8::encode_utf8_decode_utf8(Seq::<char>::empty());
    assert(encode_utf8(Seq::<char>::empty()) =~= Seq::<u8>::empty());
    if encode_utf8(word).len() == 0 {
        assert(encode_utf8(word) =~= Seq::<u8>::empty());
    }
    if word.len() == 0 {
        assert(word =~= Seq::<char>::empty());
    }
}

/// Behind a valid text that begins at a character boundary there is a character boundary.
proof fn lemma_boundary_behind(bytes: Seq<u8>, start: int, word: Seq<u8>)
    requires
        vstd::utf8::valid_utf8(bytes),
        vstd::utf8::valid_utf8(word),
        is_char_boundary(bytes, start),
        0 <= start,
        start + word.len() <= bytes.len(),
        bytes.subrange(start, start + word.len()) == word,
    ensures
        is_char_boundary(bytes, start + word.len()),
    decreases bytes.len(),
{
    if start > 0 {
        reveal_with_fuel(vstd::utf8::is_char_boundary, 2);
        let n = vstd::utf8::length_of_first_scalar(bytes);
        let rest = vstd::utf8::pop_first_scalar(bytes);
        assert(rest.subrange(start - n, start - n + word.len()) =~= bytes.subrange(
            start,
            start + word.len(),
        ));
        lemma_boundary_behind(rest, start - n, word);
    } else if word.len() > 0 {
        let n = vstd::utf8::length_of_first_scalar(bytes);
        let rest = vstd::utf8::pop_first_scalar(bytes);
        let word_rest = vstd::utf8::pop_first_scalar(word);
        assert forall|i: int| 0 <= i < word.len() implies word[i] == bytes[i] by {
            assert(bytes.subrange(0, word.len() as int)[i] == bytes[i]);
        }
        assert(vstd::utf8::length_of_first_scalar(word) == n);
        assert(rest.subrange(0, word_rest.len() as int) =~= word_rest);
        lemma_boundary_behind(rest, 0, word_rest);
    }
}

/// The bytes of a word that is not empty can stand in a sentence between two characters only.
proof fn lemma_word_occurs(word: Seq<char>, sentence: Seq<char>, start: int, end: int)
    requires
        bytes_at(word, sentence, start, end),
        word.len() > 0,
    ensures
        occurs_at(word, sentence, start, end),
{
    let bytes = encode_utf8(sentence);
    let part = encode_utf8(word);
    vstd::utf8::encode_utf8_valid_utf8(sentence);
    vstd::utf8::encode_utf8_valid_utf8(word);
    lemma_empty_encoding(word);
    assert(part[0] == bytes[start]);
    vstd::utf8::is_char_boundary_start_end_of_seq(part);
    vstd::utf8::is_char_boundary_iff_not_is_continuation_byte(part, 0);
    vstd::utf8::is_char_boundary_iff_not_is_continuation_byte(bytes, start);
    lemma_boundary_behind(bytes, start, part);
}

proof fn lemma_pattern_list_covers(
    hsk_words: Seq<Seq<char>>,
    top_words: Seq<Seq<char>>,
    hsk: Map<Seq<char>, u32>,
    top: Map<Seq<char>, u32>,
)
    requires
        lists_words(hsk_words, hsk),
        lists_words(top_words, top),
    ensures
        covers_vocabs(pattern_list(hsk_words, top_words), hsk, top),
{
    let first = hsk_words.filter(|w: Seq<char>| w.len() > 0);
    let second = top_words.filter(|w: Seq<char>| w.len() > 0 && !hsk_words.contains(w));
    let all = pattern_list(hsk_words, top_words);
    broadcast use vstd::seq_lib::group_filter_ensures;

    lemma_filter_part(hsk_words, |w: Seq<char>| w.len() > 0);
    lemma_filter_part(top_words, |w: Seq<char>| w.len() > 0 && !hsk_words.contains(w));
    assert forall|w: Seq<char>| #[trigger] all.contains(w) <==> w.len() > 0 && is_known(
        hsk,
        top,
        w,
    ) by {
        if all.contains(w) {
            let i = all.index_of(w);
            if i < first.len() {
                assert(first.contains(w));
                assert(hsk_words.contains(w));
            } else {
                assert(second[i - first.len()] == w);
                assert(second.contains(w));
                assert(top_words.contains(w));
            }
        }
        if w.len() > 0 && hsk.contains_key(w) {
            assert(hsk_words.contains(w));
            assert(first.contains(w));
            assert(all[first.index_of(w)] == w);
        } else if w.len() > 0 && top.contains_key(w) {
            assert(top_words.contains(w));
            assert(second.contains(w));
            assert(all[first.len() + second.index_of(w)] == w);
        }
    }
    assert forall|i: int, j: int| 0 <= i < all.len() && 0 <= j < all.len() && i != j implies all[i]
        != all[j] by {
        if i < first.len() && j >= first.len() {
            assert(first.contains(all[i]) && second.contains(all[j]));
        } else if j < first.len() && i >= first.len() {
            assert(first.contains(all[j]) && second.contains(all[i]));
        }
    }
}

/// Combine all patterns from both vocabularies, given the words of each.
pub fn combine_patterns(
    hsk_words: &Vec<String>,
    top_words: &Vec<String>,
    hsk_vocab: &FxHashMap<String, u32>,
) -> (patterns: Vec<String>)
    requires
        lists_words(texts(hsk_words@), entries(*hsk_vocab)),
    ensures
        texts(patterns@) == pattern_list(texts(hsk_words@), texts(top_words@)),
{
    let ghost first = texts(hsk_words@);
    let ghost second = texts(top_words@);
    let ghost is_word = |w: Seq<char>| w.len() > 0;
    let ghost is_new = |w: Seq<char>| w.len() > 0 && !first.contains(w);
    let mut patterns: Vec<String> = Vec::new();
    for i in 0..hsk_words.len()
        invariant
            first == texts(hsk_words@),
            is_word == (|w: Seq<char>| w.len() > 0),
            texts(patterns@) == first.take(i as int).filter(is_word),
    {
        let word: &String = &hsk_words[i];
        proof {
            reveal(Seq::filter);
            assert(first.take(i + 1).drop_last() =~= first.take(i as int));
            assert(texts(patterns@.push(*word)) =~= texts(patterns@).push(word@));
        }
        if !word.as_str().is_empty() {
            patterns.push(word.clone());
        }
    }
    assert(first.take(hsk_words.len() as int) =~= first);
    for i in 0..top_words.len()
        invariant
            first == texts(hsk_words@),
            second == texts(top_words@),
            lists_words(first, entries(*hsk_vocab)),
            is_word == (|w: Seq<char>| w.len() > 0),
            is_new == (|w: Seq<char>| w.len() > 0 && !first.contains(w)),
            texts(patterns@) == first.filter(is_word) + second.take(i as int).filter(is_new),
    {
        let word: &String = &top_words[i];
        proof {
            reveal(Seq::filter);
            assert(second.take(i + 1).drop_last() =~= second.take(i as int));
            assert(texts(patterns@.push(*word)) =~= texts(patterns@).push(word@));
        }
        if !word.as_str().is_empty() && !vocab_contains(hsk_vocab, word.as_str()) {
            patterns.push(word.clone());
        }
    }
    assert(second.take(top_words.len() as int) =~= second);
    patterns
}

/// Matcher combining the automaton with vocabulary lookups.
pub struct Matcher {
    ac: AhoCorasick,
    patterns: Vec<String>,
    hsk_vocab: FxHashMap<String, u32>,
    top_vocab: FxHashMap<String, u32>,
}

impl Matcher {
    #[verifier::type_invariant]
    spec fn well_formed(self) -> bool {
        &&& standard_patterns(self.ac) == Some(texts(self.patterns@))
        &&& covers_vocabs(texts(self.patterns@), entries(self.hsk_vocab), entries(self.top_vocab))
    }

    /// The HSK vocabulary.
    pub closed spec fn hsk_words(self) -> Map<Seq<char>, u32> {
        entries(self.hsk_vocab)
    }

    /// The TOP vocabulary.
    pub closed spec fn top_words(self) -> Map<Seq<char>, u32> {
        entries(self.top_vocab)
    }

    /// Build a matcher from HSK and TOP vocabularies.
    ///
    /// The patterns are handed to the automaton in the order in which the maps are walked, which
    /// is left open, and the automaton's limits decide whether it can be built.
    pub fn new(
        hsk_vocab: FxHashMap<String, u32>,
        top_vocab: FxHashMap<String, u32>,
    ) -> (r: Result<Matcher, MatcherError>)
        ensures
            exists|hsk_words: Seq<Seq<char>>, top_words: Seq<Seq<char>>|
                #![trigger pattern_list(hsk_words, top_words)]
                {
                    &&& lists_words(hsk_words, entries(hsk_vocab))
                    &&& lists_words(top_words, entries(top_vocab))
                    &&& r is Ok <==> automaton_builds(pattern_list(hsk_words, top_words))
                },
            r matches Ok(matcher) ==> {
                &&& matcher.hsk_words() == entries(hsk_vocab)
                &&& matcher.top_words() == entries(top_vocab)
            },
    {
        let hsk_words = vocab_words(&hsk_vocab);
        let top_words = vocab_words(&top_vocab);
        let patterns = combine_patterns(&hsk_words, &top_words, &hsk_vocab);
        proof {
            lemma_pattern_list_covers(
                texts(hsk_words@),
                texts(top_words@),
                entries(hsk_vocab),
                entries(top_vocab),
            );
        }
        match build_automaton(&patterns) {
            Ok(ac) => Ok(Matcher { ac, patterns, hsk_vocab, top_vocab }),
            Err(error) => Err(MatcherError::Automaton(error)),
        }
    }

    /// Get vocabulary sizes.
    pub fn vocab_sizes(&self) -> (sizes: (usize, usize))
        ensures
            sizes.0 == self.hsk_words().len(),
            sizes.1 == self.top_words().len(),
    {
        (vocab_len(&self.hsk_vocab), vocab_len(&self.top_vocab))
    }

    /// The match of a word at a place.
    fn match_of(&self, text: String, start: usize, end: usize) -> (m: WordMatch)
        ensures
            m.text@ == text@,
            m.start == start,
            m.end == end,
            m.hsk_level == level_in(self.hsk_words(), text@),
            m.top_level == level_in(self.top_words(), text@),
    {
        let hsk_level = vocab_get(&self.hsk_vocab, text.as_str());
        let top_level = vocab_get(&self.top_vocab, text.as_str());
        WordMatch { text, hsk_level, top_level, start, end }
    }

    /// Find all word matches in a sentence.
    ///
    /// Returns overlapping matches with their difficulty levels. Each match includes both byte
    /// span and difficulty assignments. An empty word, which the automaton does not know, stands
    /// before every character of the sentence and behind the last one.
    pub fn find_matches(&self, sentence: &str) -> (matches: Vec<WordMatch>)
        ensures
            is_all_matches(self.hsk_words(), self.top_words(), sentence@, matches@),
    {
        proof {
            use_type_invariant(self);
        }
        let ghost hsk = self.hsk_words();
        let ghost top = self.top_words();
        let ghost patterns = texts(self.patterns@);
        let hits = overlapping_hits(&self.ac, sentence);
        let has_empty: bool = vocab_contains(&self.hsk_vocab, "") || vocab_contains(
            &self.top_vocab,
            "",
        );
        let len: usize = sentence.as_bytes().len();
        let mut matches: Vec<WordMatch> = Vec::new();
        let mut k: usize = 0;
        let mut end: usize = 0;
        proof {
            reveal_strlit("");
            assert(""@ =~= Seq::<char>::empty());
            lemma_empty_encoding(Seq::<char>::empty());
        }
        loop
            invariant_except_break
                forall|i: int| 0 <= i < matches.len() ==> (#[trigger] matches[i]).end < end,
                forall|j: int| k <= j < hits.len() ==> (#[trigger] hits[j]).2 >= end,
                has_empty ==> forall|e: int|
                    0 <= e < end && is_char_boundary(encode_utf8(sentence@), e)
                        ==> #[trigger] reports(matches@, Seq::empty(), e, e),
            invariant
                hsk == self.hsk_words(),
                top == self.top_words(),
                patterns == texts(self.patterns@),
                covers_vocabs(patterns, hsk, top),
                is_overlapping_report(patterns, sentence@, hits@),
                has_empty == is_known(hsk, top, Seq::<char>::empty()),
                len == encode_utf8(sentence@).len(),
                ""@ == Seq::<char>::empty(),
                encode_utf8(Seq::<char>::empty()).len() == 0,
                end <= len,
                k <= hits.len(),
                forall|i: int|
                    0 <= i < matches.len() ==> is_match(hsk, top, sentence@, #[trigger] matches[i]),
                forall|j: int|
                    0 <= j < k ==> reports(
                        matches@,
                        patterns[(#[trigger] hits[j]).0 as int],
                        hits[j].1 as int,
                        hits[j].2 as int,
                    ),
                in_order(matches@),
            ensures
                k == hits.len(),
                has_empty ==> forall|e: int|
                    0 <= e <= len && is_char_boundary(encode_utf8(sentence@), e)
                        ==> #[trigger] reports(matches@, Seq::empty(), e, e),
            decreases len - end,
        {
            while k < hits.len() && hits[k].2 == end
                invariant
                    hsk == self.hsk_words(),
                    top == self.top_words(),
                    patterns == texts(self.patterns@),
                    covers_vocabs(patterns, hsk, top),
                    is_overlapping_report(patterns, sentence@, hits@),
                    k <= hits.len(),
                    forall|i: int|
                        0 <= i < matches.len() ==> is_match(
                            hsk,
                            top,
                            sentence@,
                            #[trigger] matches[i],
                        ),
                    forall|j: int|
                        0 <= j < k ==> reports(
                            matches@,
                            patterns[(#[trigger] hits[j]).0 as int],
                            hits[j].1 as int,
                            hits[j].2 as int,
                        ),
                    in_order(matches@),
                    forall|i: int|
                        0 <= i < matches.len() ==> (#[trigger] matches[i]).end <= end,
                    forall|i: int|
                        0 <= i < matches.len() && (#[trigger] matches[i]).end == end ==> k > 0
                            && matches[i].start <= hits[k - 1].1 && hits[k - 1].2 == end,
                    forall|j: int| k <= j < hits.len() ==> (#[trigger] hits[j]).2 >= end,
                    has_empty ==> forall|e: int|
                        0 <= e < end && is_char_boundary(encode_utf8(sentence@), e)
                            ==> #[trigger] reports(matches@, Seq::empty(), e, e),
                decreases hits.len() - k,
            {
                let hit: (usize, usize, usize) = hits[k];
                let text = self.patterns[hit.0].clone();
                let m = self.match_of(text, hit.1, hit.2);
                proof {
                    assert(patterns[hit.0 as int] == text@);
                    assert(patterns.contains(text@));
                    lemma_word_occurs(text@, sentence@, hit.1 as int, hit.2 as int);
                    lemma_reports_push(matches@, m);
                    if k > 0 {
                        assert(precedes(
                            hits[k - 1].1 as int,
                            hits[k - 1].2 as int,
                            hits[k as int].1 as int,
                            hits[k as int].2 as int,
                        ));
                    }
                }
                matches.push(m);
                k = k + 1;
            }
            if has_empty && sentence.is_char_boundary(end) {
                let m = self.match_of(String::new(), end, end);
                proof {
                    lemma_reports_push(matches@, m);
                    assert(encode_utf8(sentence@).subrange(end as int, end as int) =~= encode_utf8(
                        Seq::<char>::empty(),
                    ));
                    assert forall|i: int| 0 <= i < matches.len() implies (#[trigger] matches[i]).end
                        < end || matches[i].start < end by {
                        if matches[i].end == end {
                            let word = patterns[hits[k - 1].0 as int];
                            assert(patterns.contains(word));
                            lemma_empty_encoding(word);
                        }
                    }
                }
                matches.push(m);
            }
            if end == len {
                break ;
            }
            end = end + 1;
        }
        proof {
            assert forall|word: Seq<char>, start: int, e: int|
                is_known(hsk, top, word) && #[trigger] occurs_at(
                    word,
                    sentence@,
                    start,
                    e,
                ) implies reports(matches@, word, start, e) by {
                lemma_empty_encoding(word);
                if word.len() == 0 {
                    assert(word =~= Seq::<char>::empty());
                } else {
                    assert(patterns.contains(word));
                    let p = choose|p: int| 0 <= p < patterns.len() && patterns[p] == word;
                    assert(bytes_at(patterns[p], sentence@, start, e));
                }
            }
        }
        matches
    }

    /// Extract non-overlapping matches using greedy longest-match strategy.
    ///
    /// This is useful if you want exactly one match per position. Returns matches that don't
    /// overlap, prioritizing longer matches.
    pub fn find_non_overlapping(&self, sentence: &str) -> (result: Vec<WordMatch>)
        ensures
            is_longest_reading(self.hsk_words(), self.top_words(), sentence@, result@),
    {
        let all_matches = self.find_matches(sentence);
        let result = choose_non_overlapping(&all_matches);
        proof {
            law_greedy_choice_is_longest_reading(
                self.hsk_words(),
                self.top_words(),
                sentence@,
                all_matches@,
                result@,
            );
        }
        result
    }
}

/// The greedy choice from all matches of a sentence is its longest reading.
pub proof fn law_greedy_choice_is_longest_reading(
    hsk: Map<Seq<char>, u32>,
    top: Map<Seq<char>, u32>,
    sentence: Seq<char>,
    all: Seq<WordMatch>,
    chosen: Seq<WordMatch>,
)
    requires
        is_all_matches(hsk, top, sentence, all),
        is_greedy_choice(all, chosen),
    ensures
        is_longest_reading(hsk, top, sentence, chosen),
{
    assert forall|i: int| 0 <= i < chosen.len() implies is_match(
        hsk,
        top,
        sentence,
        #[trigger] chosen[i],
    ) by {
        assert(all.contains(chosen[i]));
        assert(all[all.index_of(chosen[i])] == chosen[i]);
    }
    assert forall|i: int, word: Seq<char>, start: int, end: int|
        0 <= i < chosen.len() && is_known(hsk, top, word) && #[trigger] occurs_at(
            word,
            sentence,
            start,
            end,
        ) && start == (#[trigger] chosen[i]).start implies end <= chosen[i].end by {
        assert(reports(all, word, start, end));
    }
    assert forall|word: Seq<char>, start: int, end: int|
        is_known(hsk, top, word) && #[trigger] occurs_at(
            word,
            sentence,
            start,
            end,
        ) implies is_taken(start, chosen) by {
        assert(reports(all, word, start, end));
    }
}

/// The two lists hold the same matches in the same order.
pub open spec fn same_matches(a: Seq<WordMatch>, b: Seq<WordMatch>) -> bool {
    &&& a.len() == b.len()
    &&& forall|i: int| 0 <= i < a.len() ==> same_match(#[trigger] a[i], b[i])
}

/// The two matches agree in all their fields.
pub open spec fn same_match(a: WordMatch, b: WordMatch) -> bool {
    &&& a.text@ == b.text@
    &&& a.hsk_level == b.hsk_level
    &&& a.top_level == b.top_level
    &&& a.start == b.start
    &&& a.end == b.end
}

proof fn lemma_all_matches_prefix(
    hsk: Map<Seq<char>, u32>,
    top: Map<Seq<char>, u32>,
    sentence: Seq<char>,
    a: Seq<WordMatch>,
    b: Seq<WordMatch>,
    n: int,
)
    requires
        is_all_matches(hsk, top, sentence, a),
        is_all_matches(hsk, top, sentence, b),
        0 <= n <= a.len(),
        n <= b.len(),
    ensures
        forall|i: int| 0 <= i < n ==> same_match(#[trigger] a[i], b[i]),
    decreases n,
{
    if n > 0 {
        let i = n - 1;
        lemma_all_matches_prefix(hsk, top, sentence, a, b, i);
        assert(is_match(hsk, top, sentence, a[i]) && is_match(hsk, top, sentence, b[i]));
        assert(reports(b, a[i].text@, a[i].start as int, a[i].end as int));
        assert(reports(a, b[i].text@, b[i].start as int, b[i].end as int));
        let j = choose|j: int|
            0 <= j < b.len() && (#[trigger] b[j]).text@ == a[i].text@ && b[j].start == a[i].start
                && b[j].end == a[i].end;
        let l = choose|l: int|
            0 <= l < a.len() && (#[trigger] a[l]).text@ == b[i].text@ && a[l].start == b[i].start
                && a[l].end == b[i].end;
        assert(is_match(hsk, top, sentence, b[j]));
        if j < i {
            assert(same_match(a[j], b[j]));
            assert(false);
        }
        if l < i {
            assert(same_match(a[l], b[l]));
            assert(false);
        }
        assert(j == i);
    }
}

/// Matching is deterministic: the vocabularies and the sentence alone fix all matches and their
/// order.
pub proof fn law_find_matches_deterministic(
    hsk: Map<Seq<char>, u32>,
    top: Map<Seq<char>, u32>,
    sentence: Seq<char>,
    a: Seq<WordMatch>,
    b: Seq<WordMatch>,
)
    requires
        is_all_matches(hsk, top, sentence, a),
        is_all_matches(hsk, top, sentence, b),
    ensures
        same_matches(a, b),
{
    if a.len() < b.len() {
        lemma_all_matches_no_shorter(hsk, top, sentence, b, a);
    } else if b.len() < a.len() {
        lemma_all_matches_no_shorter(hsk, top, sentence, a, b);
    }
    lemma_all_matches_prefix(hsk, top, sentence, a, b, a.len() as int);
}

proof fn lemma_all_matches_no_shorter(
    hsk: Map<Seq<char>, u32>,
    top: Map<Seq<char>, u32>,
    sentence: Seq<char>,
    long: Seq<WordMatch>,
    short: Seq<WordMatch>,
)
    requires
        is_all_matches(hsk, top, sentence, long),
        is_all_matches(hsk, top, sentence, short),
    ensures
        short.len() >= long.len(),
{
    if short.len() < long.len() {
        lemma_all_matches_prefix(hsk, top, sentence, short, long, short.len() as int);
        let m = long[short.len() as int];
        assert(is_match(hsk, top, sentence, m));
        assert(reports(short, m.text@, m.start as int, m.end as int));
        let l = choose|l: int|
            0 <= l < short.len() && (#[trigger] short[l]).text@ == m.text@ && short[l].start
                == m.start && short[l].end == m.end;
        assert(same_match(short[l], long[l]));
        assert(false);
    }
}

/// Two matches at the same place are the same match.
proof fn lemma_same_place_same_match(
    hsk: Map<Seq<char>, u32>,
    top: Map<Seq<char>, u32>,
    sentence: Seq<char>,
    a: WordMatch,
    b: WordMatch,
)
    requires
        is_match(hsk, top, sentence, a),
        is_match(hsk, top, sentence, b),
        a.start == b.start,
        a.end == b.end,
    ensures
        same_match(a, b),
{
    vstd::utf8::encode_utf8_decode_utf8(a.text@);
    vstd::utf8::encode_utf8_decode_utf8(b.text@);
}

proof fn lemma_reading_end(
    hsk: Map<Seq<char>, u32>,
    top: Map<Seq<char>, u32>,
    sentence: Seq<char>,
    a: Seq<WordMatch>,
    b: Seq<WordMatch>,
    i: int,
)
    requires
        is_longest_reading(hsk, top, sentence, a),
        is_longest_reading(hsk, top, sentence, b),
        0 <= i < a.len(),
        i < b.len(),
        a[i].start == b[i].start,
    ensures
        is_match(hsk, top, sentence, a[i]),
        a[i].end <= b[i].end,
{
    assert(is_match(hsk, top, sentence, a[i]));
    assert(occurs_at(a[i].text@, sentence, a[i].start as int, a[i].end as int));
}

proof fn lemma_reading_start(
    hsk: Map<Seq<char>, u32>,
    top: Map<Seq<char>, u32>,
    sentence: Seq<char>,
    a: Seq<WordMatch>,
    b: Seq<WordMatch>,
    i: int,
)
    requires
        is_longest_reading(hsk, top, sentence, a),
        is_longest_reading(hsk, top, sentence, b),
        0 <= i < a.len(),
        i <= b.len(),
        forall|j: int| 0 <= j < i ==> same_match(#[trigger] a[j], b[j]),
    ensures
        i < b.len(),
        b[i].start <= a[i].start,
{
    let start = a[i].start as int;
    assert(is_match(hsk, top, sentence, a[i]));
    assert(is_taken(start, b));
    let j = lemma_taken_by(start, b);
    if j < i {
        assert(same_match(a[j], b[j]));
        assert(a[j].end <= a[i].start && a[j].start < a[i].start);
    } else if i < j {
        assert(b[i].start < b[j].start);
    }
}

proof fn lemma_reading_prefix(
    hsk: Map<Seq<char>, u32>,
    top: Map<Seq<char>, u32>,
    sentence: Seq<char>,
    a: Seq<WordMatch>,
    b: Seq<WordMatch>,
    n: int,
)
    requires
        is_longest_reading(hsk, top, sentence, a),
        is_longest_reading(hsk, top, sentence, b),
        0 <= n <= a.len(),
    ensures
        n <= b.len(),
        forall|i: int| 0 <= i < n ==> same_match(#[trigger] a[i], b[i]),
    decreases n,
{
    if n > 0 {
        let i = n - 1;
        lemma_reading_prefix(hsk, top, sentence, a, b, i);
        lemma_reading_start(hsk, top, sentence, a, b, i);
        lemma_reading_start(hsk, top, sentence, b, a, i);
        lemma_reading_end(hsk, top, sentence, a, b, i);
        lemma_reading_end(hsk, top, sentence, b, a, i);
        lemma_same_place_same_match(hsk, top, sentence, a[i], b[i]);
    }
}

/// The greedy reading is deterministic: the vocabularies and the sentence alone fix it.
pub proof fn law_longest_reading_deterministic(
    hsk: Map<Seq<char>, u32>,
    top: Map<Seq<char>, u32>,
    sentence: Seq<char>,
    a: Seq<WordMatch>,
    b: Seq<WordMatch>,
)
    requires
        is_longest_reading(hsk, top, sentence, a),
        is_longest_reading(hsk, top, sentence, b),
    ensures
        same_matches(a, b),
{
    lemma_reading_prefix(hsk, top, sentence, a, b, a.len() as int);
    lemma_reading_prefix(hsk, top, sentence, b, a, b.len() as int);
}

/// The byte offsets of a match are correct: the sentence can be cut there, between two
/// characters, and what stands between the cuts is the text of the match.
pub proof fn law_byte_offsets_correct(
    hsk: Map<Seq<char>, u32>,
    top: Map<Seq<char>, u32>,
    sentence: Seq<char>,
    m: WordMatch,
)
    requires
        is_match(hsk, top, sentence, m),
    ensures
        is_char_boundary(encode_utf8(sentence), m.start as int),
        is_char_boundary(encode_utf8(sentence), m.end as int),
        decode_utf8(encode_utf8(sentence).subrange(m.start as int, m.end as int)) == m.text@,
{
    vstd::utf8::encode_utf8_decode_utf8(m.text@);
}

/// A matched word has a level on at least one of the scales.
pub proof fn law_match_has_level(
    hsk: Map<Seq<char>, u32>,
    top: Map<Seq<char>, u32>,
    sentence: Seq<char>,
    m: WordMatch,
)
    requires
        is_match(hsk, top, sentence, m),
    ensures
        m.hsk_level is Some || m.top_level is Some,
{
}

// ---------------------------------------------------------------------------
// Laws over the characters of the sentence
// ---------------------------------------------------------------------------

proof fn lemma_encode_concat(a: Seq<char>, b: Seq<char>)
    ensures
        encode_utf8(a + b) == encode_utf8(a) + encode_utf8(b),
    decreases a.len(),
{
    if a.len() == 0 {
        assert(a + b =~= b);
        assert(encode_utf8(a) + encode_utf8(b) =~= encode_utf8(b));
    } else {
        lemma_encode_concat(a.drop_first(), b);
        assert((a + b).drop_first() =~= a.drop_first() + b);
        assert(encode_utf8(a + b) =~= encode_utf8(a) + encode_utf8(b));
    }
}

/// Between two parts of a text there is a character boundary.
proof fn lemma_boundary_between(a: Seq<char>, b: Seq<char>)
    ensures
        is_char_boundary(encode_utf8(a + b), encode_utf8(a).len() as int),
{
    let bytes = encode_utf8(a + b);
    lemma_encode_concat(a, b);
    vstd::utf8::encode_utf8_valid_utf8(a + b);
    vstd::utf8::encode_utf8_valid_utf8(a);
    vstd::utf8::is_char_boundary_start_end_of_seq(bytes);
    assert(bytes.subrange(0, encode_utf8(a).len() as int) =~= encode_utf8(a));
    lemma_boundary_behind(bytes, 0, encode_utf8(a));
}

/// A word between two parts of a sentence stands behind the bytes of the first.
proof fn lemma_part_occurs(before: Seq<char>, word: Seq<char>, after: Seq<char>)
    ensures
        occurs_at(
            word,
            before + word + after,
            encode_utf8(before).len() as int,
            (encode_utf8(before).len() + encode_utf8(word).len()) as int,
        ),
{
    let sentence = before + word + after;
    let start = encode_utf8(before).len() as int;
    let end = start + encode_utf8(word).len();
    lemma_encode_concat(before + word, after);
    lemma_encode_concat(before, word);
    lemma_boundary_between(before + word, after);
    lemma_boundary_between(before, word + after);
    assert(before + (word + after) =~= sentence);
    assert(encode_utf8(sentence).subrange(start, end) =~= encode_utf8(word));
}

/// Nothing is missed: wherever a sentence has a word of one of the vocabularies between two parts,
/// there is a match of the word, from the bytes of the first part on and as long as the word.
pub proof fn law_every_word_is_found(
    hsk: Map<Seq<char>, u32>,
    top: Map<Seq<char>, u32>,
    before: Seq<char>,
    word: Seq<char>,
    after: Seq<char>,
    matches: Seq<WordMatch>,
)
    requires
        is_all_matches(hsk, top, before + word + after, matches),
        hsk.contains_key(word) || top.contains_key(word),
    ensures
        exists|i: int|
            {
                &&& 0 <= i < matches.len()
                &&& (#[trigger] matches[i]).text@ == word
                &&& matches[i].start == encode_utf8(before).len()
                &&& matches[i].end == encode_utf8(before).len() + encode_utf8(word).len()
            },
{
    lemma_part_occurs(before, word, after);
    assert(is_known(hsk, top, word));
    assert(reports(
        matches,
        word,
        encode_utf8(before).len() as int,
        (encode_utf8(before).len() + encode_utf8(word).len()) as int,
    ));
}

/// Nothing is made up: the sentence is what stands before a match, the text of the match, and what
/// stands behind it, and a vocabulary holds the text. The levels of the match are those that the
/// vocabularies give to the text, each by itself.
pub proof fn law_matches_are_words(
    hsk: Map<Seq<char>, u32>,
    top: Map<Seq<char>, u32>,
    sentence: Seq<char>,
    m: WordMatch,
)
    requires
        is_match(hsk, top, sentence, m),
    ensures
        exists|before: Seq<char>, after: Seq<char>|
            {
                &&& sentence == #[trigger] (before + m.text@ + after)
                &&& m.start == encode_utf8(before).len()
                &&& m.end == encode_utf8(before).len() + encode_utf8(m.text@).len()
            },
        hsk.contains_key(m.text@) || top.contains_key(m.text@),
        hsk.contains_key(m.text@) ==> m.hsk_level == Some(hsk[m.text@]),
        !hsk.contains_key(m.text@) ==> m.hsk_level is None,
        top.contains_key(m.text@) ==> m.top_level == Some(top[m.text@]),
        !top.contains_key(m.text@) ==> m.top_level is None,
{
    let bytes = encode_utf8(sentence);
    let (start, end) = (m.start as int, m.end as int);
    vstd::utf8::encode_utf8_valid_utf8(sentence);
    vstd::utf8::valid_utf8_split(bytes, start);
    vstd::utf8::valid_utf8_split(bytes, end);
    let before = decode_utf8(bytes.subrange(0, start));
    let after = decode_utf8(bytes.subrange(end, bytes.len() as int));
    vstd::utf8::decode_utf8_encode_utf8(bytes.subrange(0, start));
    vstd::utf8::decode_utf8_encode_utf8(bytes.subrange(end, bytes.len() as int));
    let whole = before + m.text@ + after;
    lemma_encode_concat(before + m.text@, after);
    lemma_encode_concat(before, m.text@);
    assert(encode_utf8(whole) =~= bytes);
    vstd::utf8::encode_utf8_decode_utf8(whole);
    vstd::utf8::encode_utf8_decode_utf8(sentence);
    assert(sentence == before + m.text@ + after);
}

/// All matches are correct ones, and they come by where they end and then by where they begin, each
/// place and word once.
pub proof fn law_matches_in_order(
    hsk: Map<Seq<char>, u32>,
    top: Map<Seq<char>, u32>,
    sentence: Seq<char>,
    matches: Seq<WordMatch>,
)
    requires
        is_all_matches(hsk, top, sentence, matches),
    ensures
        forall|i: int|
            0 <= i < matches.len() ==> is_match(hsk, top, sentence, #[trigger] matches[i]),
        forall|i: int, j: int|
            0 <= i < j < matches.len() ==> (#[trigger] matches[i]).end < (#[trigger] matches[j]).end
                || (matches[i].end == matches[j].end && matches[i].start < matches[j].start),
{
}

/// The greedy reading leaves no word out without a reason: wherever a sentence has a word of one of
/// the vocabularies between two parts, either the reading has a match that begins there and is at
/// least as long, or one that begins before and goes on.
pub proof fn law_reading_is_greedy(
    hsk: Map<Seq<char>, u32>,
    top: Map<Seq<char>, u32>,
    before: Seq<char>,
    word: Seq<char>,
    after: Seq<char>,
    chosen: Seq<WordMatch>,
)
    requires
        is_longest_reading(hsk, top, before + word + after, chosen),
        hsk.contains_key(word) || top.contains_key(word),
    ensures
        exists|i: int|
            {
                &&& 0 <= i < chosen.len()
                &&& (#[trigger] chosen[i]).start <= encode_utf8(before).len()
                &&& chosen[i].start == encode_utf8(before).len() ==> chosen[i].end >= encode_utf8(
                    before,
                ).len() + encode_utf8(word).len()
                &&& chosen[i].start < encode_utf8(before).len() ==> chosen[i].end > encode_utf8(
                    before,
                ).len()
            },
{
    let sentence = before + word + after;
    let start = encode_utf8(before).len() as int;
    let end = start + encode_utf8(word).len();
    lemma_part_occurs(before, word, after);
    assert(is_known(hsk, top, word));
    assert(is_taken(start, chosen));
    let i = lemma_taken_by(start, chosen);
    if chosen[i].start == start {
        assert(end <= chosen[i].end);
    }
}

/// The greedy reading goes from left to right without overlap, one match at most at each place, and
/// all its matches are correct ones.
pub proof fn law_reading_is_disjoint(
    hsk: Map<Seq<char>, u32>,
    top: Map<Seq<char>, u32>,
    sentence: Seq<char>,
    chosen: Seq<WordMatch>,
)
    requires
        is_longest_reading(hsk, top, sentence, chosen),
    ensures
        forall|i: int|
            0 <= i < chosen.len() ==> is_match(hsk, top, sentence, #[trigger] chosen[i]),
        forall|i: int, j: int|
            0 <= i < j < chosen.len() ==> (#[trigger] chosen[i]).end <= (#[trigger] chosen[j]).start
                && chosen[i].start < chosen[j].start,
{
}

/// A greedy choice takes some of the matches, without overlap and from left to right. A match is
/// left out only for a chosen one that begins at the same place and is at least as long, or begins
/// before it and goes on.
pub proof fn law_greedy_choice(all: Seq<WordMatch>, chosen: Seq<WordMatch>, k: int)
    requires
        is_greedy_choice(all, chosen),
        0 <= k < all.len(),
    ensures
        forall|i: int| 0 <= i < chosen.len() ==> all.contains(#[trigger] chosen[i]),
        forall|i: int, j: int|
            0 <= i < j < chosen.len() ==> (#[trigger] chosen[i]).end <= (#[trigger] chosen[j]).start
                && chosen[i].start < chosen[j].start,
        exists|i: int|
            {
                &&& 0 <= i < chosen.len()
                &&& (#[trigger] chosen[i]).start <= all[k].start
                &&& chosen[i].start == all[k].start ==> chosen[i].end >= all[k].end
                &&& chosen[i].start < all[k].start ==> chosen[i].end > all[k].start
            },
{
    let m = all[k];
    assert(is_taken(m.start as int, chosen));
    let i = lemma_taken_by(m.start as int, chosen);
    if chosen[i].start == m.start {
        assert(all[k].end <= chosen[i].end);
    }
}

} // verus!
