//! Training data: examples, their validation, and batches of them.
use crate::features::{compute_labels, extract_features};
use crate::json::Json;
use crate::matcher::Matcher;
use crate::normalize::FEATURE_COUNT;
use crate::types::{FeatureStats, Ratio, SentenceFeatures, TrainingExample, WordMatch};
use vstd::prelude::*;

verus! {

use crate::features::{
    hsk_labels, is_features, is_monotonic, law_feature_ranges, law_labels_monotonic, levels,
    max_level, top_labels, unmatched_chars,
};
use crate::json::{json_document, trees, JsonTree};
use crate::matcher::is_longest_reading;
use crate::normalize::is_normalized;
use crate::vocab::{lemma_trees, text_at, texts};

// ---------------------------------------------------------------------------
// Sentences
// ---------------------------------------------------------------------------

/// The texts of the items of a list, as far as the items have one.
pub open spec fn item_texts(items: Seq<JsonTree>) -> Seq<Seq<char>>
    decreases items.len(),
{
    if items.len() == 0 {
        Seq::empty()
    } else {
        let front = item_texts(items.drop_last());
        match text_at(items.last(), "text"@) {
            Some(text) => front.push(text),
            None => front,
        }
    }
}

/// The sentences of a document: the texts of its items if it is a list, else none.
pub open spec fn document_sentences(tree: JsonTree) -> Seq<Seq<char>> {
    match tree {
        JsonTree::Array(items) => item_texts(items),
        _ => Seq::empty(),
    }
}

/// The sentences of a document: an array of objects with a "text" field.
pub fn sentences_from_json(data: &Json) -> (r: Vec<String>)
    ensures
        texts(r@) == document_sentences(data.tree()),
{
    let mut sentences: Vec<String> = Vec::new();
    assert(texts(sentences@) =~= Seq::empty());
    if let Some(items) = data.as_array() {
        let ghost all = trees(items@);
        proof {
            lemma_trees(items@);
            assert(all.take(0) =~= Seq::empty());
        }
        for i in 0..items.len()
            invariant
                all == trees(items@),
                all.len() == items.len(),
                forall|j: int| 0 <= j < items.len() ==> #[trigger] all[j] == items[j].tree(),
                texts(sentences@) == item_texts(all.take(i as int)),
        {
            assert(all[i as int] == items[i as int].tree());
            assert(all.take(i + 1).drop_last() =~= all.take(i as int));
            let text: Option<&str> = match items[i].get("text") {
                Some(member) => member.as_str(),
                None => None,
            };
            if let Some(t) = text {
                let sentence: String = t.to_owned();
                assert(texts(sentences@.push(sentence)) =~= texts(sentences@).push(t@));
                sentences.push(sentence);
            }
        }
        assert(all.take(items.len() as int) =~= all);
    }
    sentences
}

/// Load sentences from JSON. The error is that of a text that is no JSON document.
pub fn load_sentences(content: &str) -> (r: Result<Vec<String>, serde_json::Error>)
    ensures
        match json_document(content@) {
            Some(tree) => r is Ok && texts(r->Ok_0@) == document_sentences(tree),
            None => r is Err,
        },
{
    match Json::parse(content) {
        Ok(data) => Ok(sentences_from_json(&data)),
        Err(error) => Err(error),
    }
}

/// How many sentences are generated for a TOP level, so that the levels are balanced.
pub open spec fn target_of(level: u32) -> int {
    if level <= 2 {
        600
    } else {
        400
    }
}

/// How many sentences are generated for a TOP level, so that the levels are balanced.
pub fn level_target(level: u32) -> (r: usize)
    ensures
        r == target_of(level),
{
    if level <= 2 {
        600
    } else {
        400
    }
}

/// How many phrases beyond the TOP vocabulary are used at most, so that hard examples do not
/// dominate.
pub const BEYOND_TOP_LIMIT: usize = 400;

/// Some lists of texts, one behind the other.
pub open spec fn flat_texts(lists: Seq<Vec<String>>) -> Seq<Seq<char>>
    decreases lists.len(),
{
    if lists.len() == 0 {
        Seq::empty()
    } else {
        flat_texts(lists.drop_last()) + texts(lists.last()@)
    }
}

/// The first texts of a list, no more than the given number.
pub open spec fn at_most(list: Seq<Seq<char>>, limit: int) -> Seq<Seq<char>> {
    if list.len() <= limit {
        list
    } else {
        list.take(limit)
    }
}

fn append_texts(sentences: &mut Vec<String>, list: &Vec<String>, limit: usize)
    ensures
        texts(final(sentences)@) == texts(old(sentences)@) + at_most(texts(list@), limit as int),
{
    let ghost given = texts(sentences@);
    let ghost all = texts(list@);
    let n: usize = if list.len() <= limit {
        list.len()
    } else {
        limit
    };
    for i in 0..n
        invariant
            n <= list.len(),
            all == texts(list@),
            texts(sentences@) == given + all.take(i as int),
    {
        let sentence: String = list[i].clone();
        assert(texts(sentences@.push(sentence)) =~= texts(sentences@).push(sentence@));
        sentences.push(sentence);
        assert(all.take(i + 1) =~= all.take(i as int).push(all[i as int]));
    }
    assert(all.take(n as int) =~= at_most(all, limit as int));
}

/// The sentences of a dataset: those that were loaded, those that were generated level by level,
/// and phrases beyond the TOP vocabulary up to the limit.
pub fn assemble_sentences(
    loaded: &Vec<String>,
    generated: &Vec<Vec<String>>,
    phrases: &Vec<String>,
) -> (r: Vec<String>)
    ensures
        texts(r@) == texts(loaded@) + flat_texts(generated@) + at_most(
            texts(phrases@),
            BEYOND_TOP_LIMIT as int,
        ),
{
    let mut sentences: Vec<String> = Vec::new();
    append_texts(&mut sentences, loaded, loaded.len());
    assert(texts(sentences@) =~= texts(loaded@));
    for i in 0..generated.len()
        invariant
            texts(sentences@) == texts(loaded@) + flat_texts(generated@.take(i as int)),
    {
        assert(generated@.take(i + 1).drop_last() =~= generated@.take(i as int));
        append_texts(&mut sentences, &generated[i], generated[i].len());
    }
    assert(generated@.take(generated.len() as int) =~= generated@);
    append_texts(&mut sentences, phrases, BEYOND_TOP_LIMIT);
    sentences
}

// ---------------------------------------------------------------------------
// Examples
// ---------------------------------------------------------------------------

/// A sentence with the given matches is fit for training:
/// - it has at least 2 matched words,
/// - it is readable at some level of one of the scales,
/// - it has from 5 to 200 characters,
/// - no more than 15 in 100 of its characters are out of vocabulary,
/// - it is not easy on the TOP scale (up to level 2) with HSK words beyond level 5,
/// - it is not within the TOP scale (up to level 4) with HSK words beyond level 6.
pub open spec fn is_valid_example(matches: Seq<WordMatch>, sentence: Seq<char>) -> bool {
    let hsk_max = max_level(levels(matches, true));
    let top_max = max_level(levels(matches, false));
    &&& matches.len() >= 2
    &&& hsk_labels(matches).contains(1u32) || top_labels(matches).contains(1u32)
    &&& 5 <= sentence.len() <= 200
    &&& 100 * unmatched_chars(matches, sentence) <= 15 * sentence.len()
    &&& !(hsk_max > 5 && top_max <= 2)
    &&& !(hsk_max > 6 && top_max <= 4)
}

/// `example` is the training example of a sentence with the given matches.
pub open spec fn is_example(
    matches: Seq<WordMatch>,
    sentence: Seq<char>,
    example: TrainingExample<Ratio>,
) -> bool {
    &&& example.sentence@ == sentence
    &&& is_features(matches, sentence, example.features)
    &&& example.hsk_labels@ == hsk_labels(matches)
    &&& example.top_labels@ == top_labels(matches)
}

/// Whether one of some labels is 1.
pub fn has_label(labels: &Vec<u32>) -> (r: bool)
    ensures
        r == labels@.contains(1u32),
{
    for i in 0..labels.len()
        invariant
            forall|j: int| 0 <= j < i ==> labels[j] != 1,
    {
        if labels[i] == 1 {
            return true;
        }
    }
    false
}

/// Make the training example of a sentence with the given matches, if it is fit for training.
pub fn make_example(matches: &Vec<WordMatch>, sentence: &str) -> (r: Option<TrainingExample<Ratio>>)
    ensures
        match r {
            Some(example) => is_valid_example(matches@, sentence@) && is_example(
                matches@,
                sentence@,
                example,
            ),
            None => !is_valid_example(matches@, sentence@),
        },
{
    if matches.len() < 2 {
        return None;
    }
    let features: SentenceFeatures<Ratio> = extract_features(matches.as_slice(), sentence);
    let (hsk_labels, top_labels) = compute_labels(matches.as_slice());
    proof {
        law_feature_ranges(matches@, sentence@, features);
    }
    if !has_label(&hsk_labels) && !has_label(&top_labels) {
        return None;
    }
    let char_count: usize = sentence.unicode_len();
    if char_count < 5 || char_count > 200 {
        return None;
    }
    if 100 * features.oov_ratio.numerator > 15 * features.oov_ratio.denominator {
        return None;
    }
    if features.hsk_max.numerator > 5 && features.top_max.numerator <= 2 {
        return None;
    }
    if features.hsk_max.numerator > 6 && features.top_max.numerator <= 4 {
        return None;
    }
    Some(TrainingExample { sentence: sentence.to_owned(), features, hsk_labels, top_labels })
}

/// `examples` are the training examples of some sentences with the given matches, in order, where
/// a sentence that is not fit for training has none.
pub open spec fn are_examples(
    readings: Seq<Seq<WordMatch>>,
    sentences: Seq<Seq<char>>,
    examples: Seq<TrainingExample<Ratio>>,
) -> bool
    decreases sentences.len(),
{
    if sentences.len() == 0 {
        examples.len() == 0
    } else if is_valid_example(readings.last(), sentences.last()) {
        &&& examples.len() > 0
        &&& is_example(readings.last(), sentences.last(), examples.last())
        &&& are_examples(readings.drop_last(), sentences.drop_last(), examples.drop_last())
    } else {
        are_examples(readings.drop_last(), sentences.drop_last(), examples)
    }
}

/// `readings` are the greedy readings of some sentences.
pub open spec fn are_readings(
    hsk: Map<Seq<char>, u32>,
    top: Map<Seq<char>, u32>,
    sentences: Seq<Seq<char>>,
    readings: Seq<Seq<WordMatch>>,
) -> bool {
    &&& readings.len() == sentences.len()
    &&& forall|i: int|
        0 <= i < sentences.len() ==> is_longest_reading(
            hsk,
            top,
            sentences[i],
            #[trigger] readings[i],
        )
}

/// Extract features and labels of sentences, and keep those that are fit for training.
pub fn build_examples(matcher: &Matcher, sentences: &Vec<String>) -> (examples: Vec<
    TrainingExample<Ratio>,
>)
    ensures
        exists|readings: Seq<Seq<WordMatch>>|
            {
                &&& #[trigger] are_readings(
                    matcher.hsk_words(),
                    matcher.top_words(),
                    texts(sentences@),
                    readings,
                )
                &&& are_examples(readings, texts(sentences@), examples@)
            },
{
    let ghost all = texts(sentences@);
    let ghost (hsk, top) = (matcher.hsk_words(), matcher.top_words());
    let ghost mut readings: Seq<Seq<WordMatch>> = Seq::empty();
    let mut examples: Vec<TrainingExample<Ratio>> = Vec::new();
    for i in 0..sentences.len()
        invariant
            all == texts(sentences@),
            hsk == matcher.hsk_words(),
            top == matcher.top_words(),
            are_readings(hsk, top, all.take(i as int), readings),
            are_examples(readings, all.take(i as int), examples@),
    {
        let sentence: &str = sentences[i].as_str();
        let matches = matcher.find_non_overlapping(sentence);
        proof {
            let before = readings;
            readings = readings.push(matches@);
            assert(all.take(i + 1).drop_last() =~= all.take(i as int));
            assert(readings.drop_last() =~= before);
            assert forall|j: int| 0 <= j < i + 1 implies is_longest_reading(
                hsk,
                top,
                all.take(i + 1)[j],
                #[trigger] readings[j],
            ) by {
                if j < i {
                    assert(readings[j] == before[j]);
                    assert(all.take(i + 1)[j] == all.take(i as int)[j]);
                }
            }
        }
        if let Some(example) = make_example(&matches, sentence) {
            assert(examples@.push(example).drop_last() =~= examples@);
            examples.push(example);
        }
    }
    assert(all.take(sentences.len() as int) =~= all);
    examples
}

// ---------------------------------------------------------------------------
// Label distribution
// ---------------------------------------------------------------------------

/// The labels of an example on one of the scales.
pub open spec fn labels_of<N>(example: TrainingExample<N>, is_hsk: bool) -> Seq<u32> {
    if is_hsk {
        example.hsk_labels@
    } else {
        example.top_labels@
    }
}

/// The example is readable at the level with the given index.
pub open spec fn is_labelled<N>(example: TrainingExample<N>, is_hsk: bool, index: int) -> bool {
    index < labels_of(example, is_hsk).len() && labels_of(example, is_hsk)[index] == 1
}

/// The number of examples that are readable at the level with the given index.
pub open spec fn readable_count<N>(
    examples: Seq<TrainingExample<N>>,
    is_hsk: bool,
    index: int,
) -> nat {
    examples.filter(|e: TrainingExample<N>| is_labelled(e, is_hsk, index)).len()
}

fn count_readable<N>(examples: &Vec<TrainingExample<N>>, is_hsk: bool, index: usize) -> (r: usize)
    ensures
        r == readable_count(examples@, is_hsk, index as int),
{
    let ghost keep = |e: TrainingExample<N>| is_labelled(e, is_hsk, index as int);
    let mut count: usize = 0;
    for i in 0..examples.len()
        invariant
            keep == (|e: TrainingExample<N>| is_labelled(e, is_hsk, index as int)),
            count == examples@.take(i as int).filter(keep).len(),
            count <= i,
    {
        proof {
            reveal(Seq::filter);
            assert(examples@.take(i + 1).drop_last() =~= examples@.take(i as int));
        }
        let labels: &Vec<u32> = if is_hsk {
            &examples[i].hsk_labels
        } else {
            &examples[i].top_labels
        };
        if index < labels.len() && labels[index] == 1 {
            count = count + 1;
        }
    }
    assert(examples@.take(examples.len() as int) =~= examples@);
    count
}

/// Count the readable examples at each level of a scale.
pub fn label_distribution<N>(
    examples: &Vec<TrainingExample<N>>,
    is_hsk: bool,
    level_count: usize,
) -> (r: Vec<usize>)
    ensures
        r.len() == level_count,
        forall|i: int|
            0 <= i < level_count ==> #[trigger] r[i] == readable_count(examples@, is_hsk, i),
{
    let mut counts: Vec<usize> = Vec::new();
    for index in 0..level_count
        invariant
            counts.len() == index,
            forall|i: int|
                0 <= i < index ==> #[trigger] counts[i] == readable_count(examples@, is_hsk, i),
    {
        let count: usize = count_readable(examples, is_hsk, index);
        counts.push(count);
    }
    counts
}

// ---------------------------------------------------------------------------
// Batches
// ---------------------------------------------------------------------------

/// A batch of examples as flat rows.
pub struct Batch<N> {
    /// The normalized features, 12 for each example.
    pub features: Vec<N>,
    /// The HSK labels of all examples.
    pub hsk: Vec<u32>,
    /// The TOP labels of all examples.
    pub top: Vec<u32>,
}

/// The labels of some examples on one of the scales, one example behind the other.
pub open spec fn flat_labels<N>(examples: Seq<TrainingExample<N>>, is_hsk: bool) -> Seq<u32>
    decreases examples.len(),
{
    if examples.len() == 0 {
        Seq::empty()
    } else {
        flat_labels(examples.drop_last(), is_hsk) + labels_of(examples.last(), is_hsk)
    }
}

/// `features` are the normalized features of some examples, one example behind the other.
pub open spec fn are_normalized_rows<N: Copy, F: Fn(u32) -> N, G: Fn(N, N, N) -> N>(
    examples: Seq<TrainingExample<N>>,
    stats: FeatureStats<N>,
    from_count: F,
    z_score: G,
    features: Seq<N>,
) -> bool {
    &&& features.len() == FEATURE_COUNT * examples.len()
    &&& forall|i: int, j: int|
        #![trigger examples[i], stats.spec_means()[j]]
        0 <= i < examples.len() && 0 <= j < FEATURE_COUNT ==> is_normalized(
            examples[i].features.spec_columns()[j],
            stats.spec_means()[j],
            stats.spec_stds()[j],
            from_count,
            z_score,
            features[FEATURE_COUNT * i + j],
        )
}

fn append_labels(flat: &mut Vec<u32>, labels: &Vec<u32>)
    ensures
        final(flat)@ == old(flat)@ + labels@,
{
    let ghost given = flat@;
    for i in 0..labels.len()
        invariant
            flat@ == given + labels@.take(i as int),
    {
        flat.push(labels[i]);
        assert(labels@.take(i + 1) =~= labels@.take(i as int).push(labels[i as int]));
    }
    assert(labels@.take(labels.len() as int) =~= labels@);
}

/// Prepare the rows of a batch: normalized features and labels.
pub fn prepare_batch<N: Copy, F: Fn(u32) -> N, G: Fn(N, N, N) -> N>(
    examples: &[TrainingExample<N>],
    stats: &FeatureStats<N>,
    from_count: &F,
    z_score: &G,
) -> (batch: Batch<N>)
    requires
        forall|count: u32| call_requires(from_count, (count,)),
        forall|value: N, mean: N, std: N| call_requires(z_score, (value, mean, std)),
    ensures
        are_normalized_rows(examples@, *stats, *from_count, *z_score, batch.features@),
        batch.hsk@ == flat_labels(examples@, true),
        batch.top@ == flat_labels(examples@, false),
{
    let mut features: Vec<N> = Vec::new();
    let mut hsk: Vec<u32> = Vec::new();
    let mut top: Vec<u32> = Vec::new();
    for i in 0..examples.len()
        invariant
            forall|count: u32| call_requires(from_count, (count,)),
            forall|value: N, mean: N, std: N| call_requires(z_score, (value, mean, std)),
            are_normalized_rows(
                examples@.take(i as int),
                *stats,
                *from_count,
                *z_score,
                features@,
            ),
            hsk@ == flat_labels(examples@.take(i as int), true),
            top@ == flat_labels(examples@.take(i as int), false),
    {
        let example: &TrainingExample<N> = &examples[i];
        let row: Vec<N> = stats.normalize(&example.features, from_count, z_score);
        let ghost before = features@;
        for j in 0..FEATURE_COUNT
            invariant
                row.len() == FEATURE_COUNT,
                features@ == before + row@.take(j as int),
        {
            features.push(row[j]);
            assert(row@.take(j + 1) =~= row@.take(j as int).push(row[j as int]));
        }
        append_labels(&mut hsk, &example.hsk_labels);
        append_labels(&mut top, &example.top_labels);
        proof {
            let shorter = examples@.take(i as int);
            let longer = examples@.take(i + 1);
            assert(longer.drop_last() =~= shorter);
            assert(row@.take(FEATURE_COUNT as int) =~= row@);
            assert forall|k: int, j: int|
                #![trigger longer[k], stats.spec_means()[j]]
                0 <= k < longer.len() && 0 <= j < FEATURE_COUNT implies is_normalized(
                longer[k].features.spec_columns()[j],
                stats.spec_means()[j],
                stats.spec_stds()[j],
                *from_count,
                *z_score,
                features[FEATURE_COUNT * k + j],
            ) by {
                if k < i {
                    assert(longer[k] == shorter[k]);
                    assert(features[FEATURE_COUNT * k + j] == before[FEATURE_COUNT * k + j]);
                } else {
                    assert(features[FEATURE_COUNT * k + j] == row[j]);
                }
            }
        }
    }
    assert(examples@.take(examples@.len() as int) =~= examples@);
    Batch { features, hsk, top }
}

/// A text has labels: it is readable at the last level of the TOP scale at least.
pub proof fn law_always_labelled(matches: Seq<WordMatch>)
    ensures
        top_labels(matches).len() == 5,
        top_labels(matches)[4] == 1,
        top_labels(matches).contains(1u32),
{
    assert(top_labels(matches)[4] == 1);
}

/// The example has labels for the 7 HSK levels and the 5 TOP levels, both of them monotonic, and a
/// sentence of 5 to 200 characters.
pub open spec fn is_well_shaped<N>(example: TrainingExample<N>) -> bool {
    &&& example.hsk_labels@.len() == 7
    &&& example.top_labels@.len() == 5
    &&& is_monotonic(example.hsk_labels@)
    &&& is_monotonic(example.top_labels@)
    &&& 5 <= example.sentence@.len() <= 200
}

/// Examples that are built of sentences are well-shaped, and there are no more of them than
/// sentences.
pub proof fn law_examples_well_shaped(
    readings: Seq<Seq<WordMatch>>,
    sentences: Seq<Seq<char>>,
    examples: Seq<TrainingExample<Ratio>>,
)
    requires
        are_examples(readings, sentences, examples),
    ensures
        examples.len() <= sentences.len(),
        forall|i: int| 0 <= i < examples.len() ==> is_well_shaped(#[trigger] examples[i]),
    decreases sentences.len(),
{
    if sentences.len() > 0 {
        if is_valid_example(readings.last(), sentences.last()) {
            law_examples_well_shaped(
                readings.drop_last(),
                sentences.drop_last(),
                examples.drop_last(),
            );
            law_labels_monotonic(readings.last());
            assert forall|i: int| 0 <= i < examples.len() implies is_well_shaped(
                #[trigger] examples[i],
            ) by {
                if i < examples.len() - 1 {
                    assert(examples[i] == examples.drop_last()[i]);
                }
            }
        } else {
            law_examples_well_shaped(readings.drop_last(), sentences.drop_last(), examples);
        }
    }
}

/// The labels of well-shaped examples fill a table: 7 HSK labels and 5 TOP labels for each
/// example.
pub proof fn law_labels_fill_table<N>(examples: Seq<TrainingExample<N>>)
    requires
        forall|i: int| 0 <= i < examples.len() ==> is_well_shaped(#[trigger] examples[i]),
    ensures
        flat_labels(examples, true).len() == 7 * examples.len(),
        flat_labels(examples, false).len() == 5 * examples.len(),
    decreases examples.len(),
{
    if examples.len() > 0 {
        assert(is_well_shaped(examples[examples.len() - 1]));
        assert forall|i: int| 0 <= i < examples.drop_last().len() implies is_well_shaped(
            #[trigger] examples.drop_last()[i],
        ) by {
            assert(examples.drop_last()[i] == examples[i]);
        }
        law_labels_fill_table(examples.drop_last());
    }
}

// ---------------------------------------------------------------------------
// Laws
// ---------------------------------------------------------------------------

/// The sentences of a list are the texts of its items, in order: one more item adds its text behind
/// the others if it has one. A document that is no list has no sentences.
pub proof fn law_sentences_of_one_more(items: Seq<JsonTree>, item: JsonTree, other: JsonTree)
    ensures
        document_sentences(JsonTree::Array(Seq::empty())) == Seq::<Seq<char>>::empty(),
        item is Object && item->Object_0.contains_key("text"@) && item->Object_0["text"@] is Text
            ==> document_sentences(JsonTree::Array(items.push(item))) == document_sentences(
            JsonTree::Array(items),
        ).push(item->Object_0["text"@]->Text_0),
        !(item is Object && item->Object_0.contains_key("text"@)
            && item->Object_0["text"@] is Text) ==> document_sentences(
            JsonTree::Array(items.push(item)),
        ) == document_sentences(JsonTree::Array(items)),
        !(other is Array) ==> document_sentences(other) == Seq::<Seq<char>>::empty(),
{
    assert(items.push(item).drop_last() =~= items);
}

/// A limit takes the first texts of a list: as many as it allows, or all of them.
pub proof fn law_at_most(list: Seq<Seq<char>>, limit: int)
    requires
        0 <= limit,
    ensures
        at_most(list, limit).is_prefix_of(list),
        at_most(list, limit).len() == list.len() || at_most(list, limit).len() == limit,
        at_most(list, limit).len() <= limit,
        list.len() <= limit ==> at_most(list, limit) == list,
{
}

/// Lists of texts stand one behind the other, each one whole and in order.
pub proof fn law_flat_texts(lists: Seq<Vec<String>>, list: Vec<String>)
    ensures
        flat_texts(Seq::empty()) == Seq::<Seq<char>>::empty(),
        flat_texts(lists.push(list)).len() == flat_texts(lists).len() + list@.len(),
        flat_texts(lists).is_prefix_of(flat_texts(lists.push(list))),
        forall|i: int|
            0 <= i < list@.len() ==> flat_texts(lists.push(list))[flat_texts(lists).len() + i]
                == (#[trigger] list@[i])@,
{
    assert(lists.push(list).drop_last() =~= lists);
}

/// Which sentences are fit for training, by their matches and their features: at least 2 words, 5 to
/// 200 characters, at most 15% out of vocabulary, and neither a maximum HSK level above 5 with a
/// maximum TOP level up to 2 nor one above 6 with one up to 4.
pub proof fn law_valid_example(
    matches: Seq<WordMatch>,
    sentence: Seq<char>,
    f: SentenceFeatures<Ratio>,
)
    requires
        is_features(matches, sentence, f),
    ensures
        is_valid_example(matches, sentence) <==> {
            &&& matches.len() >= 2
            &&& sentence.len() >= 5
            &&& sentence.len() <= 200
            &&& 100 * f.oov_ratio.numerator <= 15 * f.oov_ratio.denominator
            &&& f.hsk_max.numerator <= 5 || f.top_max.numerator > 2
            &&& f.hsk_max.numerator <= 6 || f.top_max.numerator > 4
        },
{
    law_always_labelled(matches);
}

/// Where the examples come from: each one from a sentence that is fit for training, with its text,
/// its features and its labels, in the order of the sentences; and each sentence that is fit for
/// training has one. `origins` are the places of those sentences.
pub open spec fn are_origins(
    readings: Seq<Seq<WordMatch>>,
    sentences: Seq<Seq<char>>,
    examples: Seq<TrainingExample<Ratio>>,
    origins: Seq<int>,
) -> bool {
    &&& origins.len() == examples.len()
    &&& forall|k: int, l: int|
        0 <= k < l < origins.len() ==> #[trigger] origins[k] < #[trigger] origins[l]
    &&& forall|k: int|
        #![trigger origins[k]]
        0 <= k < origins.len() ==> {
            &&& 0 <= origins[k] < sentences.len()
            &&& is_valid_example(readings[origins[k]], sentences[origins[k]])
            &&& examples[k].sentence@ == sentences[origins[k]]
            &&& is_features(readings[origins[k]], sentences[origins[k]], examples[k].features)
            &&& examples[k].hsk_labels@ == hsk_labels(readings[origins[k]])
            &&& examples[k].top_labels@ == top_labels(readings[origins[k]])
        }
    &&& forall|i: int|
        0 <= i < sentences.len() && is_valid_example(
            #[trigger] readings[i],
            sentences[i],
        ) ==> origins.contains(i)
}

/// Examples are made of exactly the sentences that are fit for training, in order.
pub proof fn law_examples_have_origins(
    readings: Seq<Seq<WordMatch>>,
    sentences: Seq<Seq<char>>,
    examples: Seq<TrainingExample<Ratio>>,
)
    requires
        readings.len() == sentences.len(),
        are_examples(readings, sentences, examples),
    ensures
        exists|origins: Seq<int>| are_origins(readings, sentences, examples, origins),
    decreases sentences.len(),
{
    if sentences.len() == 0 {
        assert(are_origins(readings, sentences, examples, Seq::empty()));
    } else {
        let (r, s) = (readings.drop_last(), sentences.drop_last());
        let last = sentences.len() - 1;
        let fits = is_valid_example(readings.last(), sentences.last());
        let e = if fits {
            examples.drop_last()
        } else {
            examples
        };
        law_examples_have_origins(r, s, e);
        let before = choose|origins: Seq<int>| are_origins(r, s, e, origins);
        let origins = if fits {
            before.push(last)
        } else {
            before
        };
        assert(forall|i: int| 0 <= i < last ==> #[trigger] readings[i] == r[i]);
        assert(forall|i: int| 0 <= i < last ==> #[trigger] sentences[i] == s[i]);
        assert forall|k: int| #![trigger origins[k]] 0 <= k < origins.len() implies {
            &&& 0 <= origins[k] < sentences.len()
            &&& is_valid_example(readings[origins[k]], sentences[origins[k]])
            &&& examples[k].sentence@ == sentences[origins[k]]
            &&& is_features(readings[origins[k]], sentences[origins[k]], examples[k].features)
            &&& examples[k].hsk_labels@ == hsk_labels(readings[origins[k]])
            &&& examples[k].top_labels@ == top_labels(readings[origins[k]])
        } by {
            if k < before.len() {
                assert(origins[k] == before[k]);
                assert(0 <= before[k] < s.len());
                assert(e[k] == examples[k]);
            }
        }
        assert forall|k: int, l: int| 0 <= k < l < origins.len() implies #[trigger] origins[k]
            < #[trigger] origins[l] by {
            assert(origins[k] == before[k]);
            assert(0 <= before[k] < s.len());
            if l < before.len() {
                assert(origins[l] == before[l]);
            }
        }
        assert forall|i: int|
            0 <= i < sentences.len() && is_valid_example(
                #[trigger] readings[i],
                sentences[i],
            ) implies origins.contains(i) by {
            if i < last {
                assert(is_valid_example(r[i], s[i]));
                let k = before.index_of(i);
                assert(origins[k] == i);
            } else {
                assert(origins[before.len() as int] == i);
            }
        }
        assert(are_origins(readings, sentences, examples, origins));
    }
}

/// An example more counts for one at each level where its label on the scale is 1, and for nothing
/// at the others.
pub proof fn law_distribution_of_one_more<N>(
    examples: Seq<TrainingExample<N>>,
    example: TrainingExample<N>,
    index: int,
)
    requires
        0 <= index,
    ensures
        readable_count(Seq::<TrainingExample<N>>::empty(), true, index) == 0,
        readable_count(Seq::<TrainingExample<N>>::empty(), false, index) == 0,
        index < example.hsk_labels@.len() && example.hsk_labels@[index] == 1 ==> readable_count(
            examples.push(example),
            true,
            index,
        ) == readable_count(examples, true, index) + 1,
        index >= example.hsk_labels@.len() || example.hsk_labels@[index] != 1 ==> readable_count(
            examples.push(example),
            true,
            index,
        ) == readable_count(examples, true, index),
        index < example.top_labels@.len() && example.top_labels@[index] == 1 ==> readable_count(
            examples.push(example),
            false,
            index,
        ) == readable_count(examples, false, index) + 1,
        index >= example.top_labels@.len() || example.top_labels@[index] != 1 ==> readable_count(
            examples.push(example),
            false,
            index,
        ) == readable_count(examples, false, index),
{
    reveal(Seq::filter);
    assert(examples.push(example).drop_last() =~= examples);
}

/// The rows of a batch: the labels of one more example stand behind the others, whole and in order,
/// those of each scale for themselves; and each example has its twelve features in its own row, each
/// one normalized with its own mean and standard deviation.
pub proof fn law_batch_rows<N: Copy, F: Fn(u32) -> N, G: Fn(N, N, N) -> N>(
    examples: Seq<TrainingExample<N>>,
    example: TrainingExample<N>,
    stats: FeatureStats<N>,
    from_count: F,
    z_score: G,
    features: Seq<N>,
    i: int,
)
    requires
        are_normalized_rows(examples, stats, from_count, z_score, features),
        0 <= i < examples.len(),
    ensures
        flat_labels(Seq::<TrainingExample<N>>::empty(), true) == Seq::<u32>::empty(),
        flat_labels(Seq::<TrainingExample<N>>::empty(), false) == Seq::<u32>::empty(),
        flat_labels(examples.push(example), true) == flat_labels(examples, true)
            + example.hsk_labels@,
        flat_labels(examples.push(example), false) == flat_labels(examples, false)
            + example.top_labels@,
        features.len() == 12 * examples.len(),
        forall|j: int|
            0 <= j < 12 ==> is_normalized(
                examples[i].features.spec_columns()[j],
                stats.spec_means()[j],
                stats.spec_stds()[j],
                from_count,
                z_score,
                #[trigger] features.subrange(12 * i, 12 * i + 12)[j],
            ),
{
    assert(examples.push(example).drop_last() =~= examples);
    let row = features.subrange(12 * i, 12 * i + 12);
    assert forall|j: int| 0 <= j < 12 implies is_normalized(
        examples[i].features.spec_columns()[j],
        stats.spec_means()[j],
        stats.spec_stds()[j],
        from_count,
        z_score,
        #[trigger] row[j],
    ) by {
        assert(row[j] == features[FEATURE_COUNT * i + j]);
        let example = examples[i];
        let mean = stats.spec_means()[j];
    }
}

/// The two easy TOP levels get 600 sentences each and the harder ones 400, as many as there are
/// phrases beyond the TOP vocabulary at most.
pub proof fn law_level_targets(level: u32)
    ensures
        level <= 2 ==> target_of(level) == 600,
        level > 2 ==> target_of(level) == 400,
        level > 2 ==> target_of(level) == BEYOND_TOP_LIMIT,
{
}

} // verus!
