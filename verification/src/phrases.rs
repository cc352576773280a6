//! Extraction of difficult phrases from a dictionary of phrases with explanations.
use crate::text::{
    all_chinese, contains_text, count_chinese, ends_with_text, starts_with_text,
};
use vstd::prelude::*;

verus! {

use crate::text::{chinese_chars, contains, ends_with, is_chinese, starts_with};

/// A dictionary entry.
#[derive(Clone, Debug)]
pub struct BkrsEntry {
    /// The phrase in simplified characters.
    pub sm: String,
    /// The phrase in traditional characters.
    pub tr: Option<String>,
    /// The pinyin.
    pub pin: Option<String>,
    /// The transcription in Latin letters.
    pub lat: Option<String>,
    /// The explanation.
    pub bkrs: String,
}

/// An extracted phrase.
#[derive(Clone, Debug)]
pub struct ExtractedPhrase {
    /// The phrase.
    pub text: String,
    /// The traditional variant of a phrase in simplified characters, if it is different.
    pub text_traditional: Option<String>,
    /// The explanation.
    pub explanation: String,
    /// The category.
    pub category: String,
}

/// What an extracted phrase says.
pub struct PhraseView {
    /// The phrase.
    pub text: Seq<char>,
    /// The traditional variant, if it is different.
    pub text_traditional: Option<Seq<char>>,
    /// The explanation.
    pub explanation: Seq<char>,
    /// The category.
    pub category: Seq<char>,
}

/// The characters of an optional text.
pub open spec fn optional_text(text: Option<String>) -> Option<Seq<char>> {
    match text {
        Some(t) => Some(t@),
        None => None,
    }
}

impl View for ExtractedPhrase {
    type V = PhraseView;

    open spec fn view(&self) -> PhraseView {
        PhraseView {
            text: self.text@,
            text_traditional: optional_text(self.text_traditional),
            explanation: self.explanation@,
            category: self.category@,
        }
    }
}

/// What is extracted, and how much of it.
#[derive(Clone, Copy, Debug)]
pub struct ExtractOptions {
    /// Minimum phrase length (characters).
    pub min_length: usize,
    /// Maximum phrase length (characters).
    pub max_length: usize,
    /// Maximum number of phrases to extract.
    pub max_count: usize,
    /// Include both simplified and traditional as separate examples.
    pub include_traditional: bool,
}

/// The classes of phrases.
#[derive(Clone, Copy, Debug, PartialEq, Eq, Structural)]
pub enum PhraseClass {
    /// Classical idioms with explanations.
    Classical,
    /// Idioms of four characters.
    Chengyu,
    /// Literary sayings with commas.
    Literary,
    /// Longer complex phrases.
    Complex,
}

impl PhraseClass {
    /// The name of the class.
    pub open spec fn spec_name(self) -> Seq<char> {
        match self {
            PhraseClass::Classical => "classical"@,
            PhraseClass::Chengyu => "chengyu"@,
            PhraseClass::Literary => "literary"@,
            PhraseClass::Complex => "complex"@,
        }
    }

    /// The category of the phrases of the class.
    pub open spec fn spec_category(self) -> Seq<char> {
        match self {
            PhraseClass::Classical => "classical_idiom"@,
            PhraseClass::Chengyu => "chengyu"@,
            PhraseClass::Literary => "literary_saying"@,
            PhraseClass::Complex => "complex_phrase"@,
        }
    }

    /// The name of the class.
    pub fn name(self) -> (r: &'static str)
        ensures
            r@ == self.spec_name(),
    {
        match self {
            PhraseClass::Classical => "classical",
            PhraseClass::Chengyu => "chengyu",
            PhraseClass::Literary => "literary",
            PhraseClass::Complex => "complex",
        }
    }

    /// The category of the phrases of the class.
    pub fn category(self) -> (r: &'static str)
        ensures
            r@ == self.spec_category(),
    {
        match self {
            PhraseClass::Classical => "classical_idiom",
            PhraseClass::Chengyu => "chengyu",
            PhraseClass::Literary => "literary_saying",
            PhraseClass::Complex => "complex_phrase",
        }
    }
}

/// The explanation speaks of a figure of speech.
pub open spec fn explains_idiom(explanation: Seq<char>) -> bool {
    ||| contains(explanation, "比喻"@)
    ||| contains(explanation, "形容"@)
    ||| contains(explanation, "指"@)
    ||| contains(explanation, "原比喻"@)
    ||| contains(explanation, "后用作"@)
    ||| contains(explanation, "用作"@)
}

/// The class of a phrase with an explanation, if it has one. The first class that fits counts.
pub open spec fn class_of(
    text: Seq<char>,
    explanation: Seq<char>,
    min_length: usize,
    max_length: usize,
) -> Option<PhraseClass> {
    if explains_idiom(explanation) && explanation.len() > 10 {
        Some(PhraseClass::Classical)
    } else if text.len() == 4 && (forall|i: int| 0 <= i < text.len() ==> is_chinese(#[trigger] text[i]))
        && explanation.len() > 15 {
        Some(PhraseClass::Chengyu)
    } else if 8 <= text.len() <= 25 && contains(text, "，"@) && explanation.len() > 10 {
        Some(PhraseClass::Literary)
    } else if min_length <= text.len() <= max_length && explanation.len() > 20 && 10 * chinese_chars(
        text,
    ) > 7 * text.len() {
        Some(PhraseClass::Complex)
    } else {
        None
    }
}

/// Find the class of a phrase with an explanation.
pub fn find_class(text: &str, explanation: &str, min_length: usize, max_length: usize) -> (r: Option<
    PhraseClass,
>)
    ensures
        r == class_of(text@, explanation@, min_length, max_length),
{
    let char_count: usize = text.unicode_len();
    let explanation_length: usize = explanation.unicode_len();
    if (contains_text(explanation, "比喻") || contains_text(explanation, "形容") || contains_text(
        explanation,
        "指",
    ) || contains_text(explanation, "原比喻") || contains_text(explanation, "后用作") || contains_text(explanation, "用作"))
        && explanation_length > 10 {
        return Some(PhraseClass::Classical);
    }
    if char_count == 4 && all_chinese(text) && explanation_length > 15 {
        return Some(PhraseClass::Chengyu);
    }
    if char_count >= 8 && char_count <= 25 && contains_text(text, "，") && explanation_length > 10 {
        return Some(PhraseClass::Literary);
    }
    if char_count >= min_length && char_count <= max_length && explanation_length > 20 {
        let chinese: u128 = count_chinese(text) as u128;
        if 10 * chinese > 7 * (char_count as u128) {
            return Some(PhraseClass::Complex);
        }
    }
    None
}

/// The traditional variant of an entry, if it is different from the simplified phrase.
pub open spec fn variant_of(entry: BkrsEntry) -> Option<Seq<char>> {
    if optional_text(entry.tr) == Some(entry.sm@) {
        None
    } else {
        optional_text(entry.tr)
    }
}

/// The extracted form of an entry of the given class.
pub open spec fn phrase_of(entry: BkrsEntry, class: PhraseClass) -> PhraseView {
    PhraseView {
        text: entry.sm@,
        text_traditional: variant_of(entry),
        explanation: entry.bkrs@,
        category: class.spec_category(),
    }
}

/// The traditional variant of an entry, if it is different from the simplified phrase.
fn find_variant(entry: &BkrsEntry) -> (r: Option<String>)
    ensures
        optional_text(r) == variant_of(*entry),
{
    match &entry.tr {
        Some(trad) => if *trad == entry.sm {
            None
        } else {
            Some(trad.clone())
        },
        None => None,
    }
}

/// Classify an entry: the name of its class, and the phrase that is extracted of it.
pub fn classify_phrase(entry: &BkrsEntry, options: &ExtractOptions) -> (r: Option<
    (String, ExtractedPhrase),
>)
    ensures
        match class_of(entry.sm@, entry.bkrs@, options.min_length, options.max_length) {
            Some(class) => r matches Some((name, phrase)) && name@ == class.spec_name() && phrase@
                == phrase_of(*entry, class),
            None => r is None,
        },
{
    match find_class(
        entry.sm.as_str(),
        entry.bkrs.as_str(),
        options.min_length,
        options.max_length,
    ) {
        Some(class) => Some(
            (
                class.name().to_owned(),
                ExtractedPhrase {
                    text: entry.sm.clone(),
                    text_traditional: find_variant(entry),
                    explanation: entry.bkrs.clone(),
                    category: class.category().to_owned(),
                },
            ),
        ),
        None => None,
    }
}

/// How many phrases of each category there are.
#[derive(Clone, Copy, Debug, PartialEq, Eq, Structural)]
pub struct CategoryStats {
    /// Classical idioms.
    pub classical: usize,
    /// Literary sayings.
    pub literary: usize,
    /// Idioms of four characters.
    pub chengyu: usize,
    /// Complex phrases.
    pub complex: usize,
    /// Traditional variants of any category.
    pub traditional_count: usize,
}

/// The field of [`CategoryStats`] in which a category is counted: by how its name begins.
pub open spec fn base_class(category: Seq<char>) -> Option<PhraseClass> {
    if starts_with(category, "classical"@) {
        Some(PhraseClass::Classical)
    } else if starts_with(category, "literary"@) {
        Some(PhraseClass::Literary)
    } else if starts_with(category, "chengyu"@) {
        Some(PhraseClass::Chengyu)
    } else if starts_with(category, "complex"@) {
        Some(PhraseClass::Complex)
    } else {
        None
    }
}

/// 1 for what is counted, 0 for what is not.
pub open spec fn one_if(counted: bool) -> int {
    if counted {
        1
    } else {
        0
    }
}

impl Default for CategoryStats {
    fn default() -> (r: CategoryStats)
        ensures
            r == (CategoryStats {
                classical: 0,
                literary: 0,
                chengyu: 0,
                complex: 0,
                traditional_count: 0,
            }),
    {
        CategoryStats { classical: 0, literary: 0, chengyu: 0, complex: 0, traditional_count: 0 }
    }
}

impl CategoryStats {
    /// The number of phrases that are counted for a class.
    pub open spec fn of(self, class: PhraseClass) -> int {
        match class {
            PhraseClass::Classical => self.classical as int,
            PhraseClass::Chengyu => self.chengyu as int,
            PhraseClass::Literary => self.literary as int,
            PhraseClass::Complex => self.complex as int,
        }
    }

    /// Count a phrase of the given category: for the class that the category's name begins with,
    /// and as a traditional variant if it ends in `_trad`.
    pub fn increment(&mut self, category: &str)
        requires
            base_class(category@) matches Some(class) ==> old(self).of(class) < usize::MAX,
            ends_with(category@, "_trad"@) ==> old(self).traditional_count < usize::MAX,
        ensures
            forall|class: PhraseClass| #[trigger]
                final(self).of(class) == old(self).of(class) + one_if(
                    base_class(category@) == Some(class),
                ),
            final(self).traditional_count == old(self).traditional_count + one_if(
                ends_with(category@, "_trad"@),
            ),
    {
        if ends_with_text(category, "_trad") {
            self.traditional_count = self.traditional_count + 1;
        }
        if starts_with_text(category, "classical") {
            self.classical = self.classical + 1;
        } else if starts_with_text(category, "literary") {
            self.literary = self.literary + 1;
        } else if starts_with_text(category, "chengyu") {
            self.chengyu = self.chengyu + 1;
        } else if starts_with_text(category, "complex") {
            self.complex = self.complex + 1;
        }
    }
}

/// The entry passes the filters: its length is within bounds, and it is mostly Chinese, at least
/// eight in ten of its characters.
pub open spec fn passes_filters(entry: BkrsEntry, options: ExtractOptions) -> bool {
    &&& options.min_length <= entry.sm@.len() <= options.max_length
    &&& 10 * chinese_chars(entry.sm@) >= 8 * entry.sm@.len()
}

/// The name of the category of the traditional variants of a class.
pub open spec fn traditional_category(class: PhraseClass) -> Seq<char> {
    class.spec_name() + "_trad"@
}

/// The extracted form of the traditional variant of an entry.
pub open spec fn traditional_phrase_of(entry: BkrsEntry, class: PhraseClass) -> PhraseView {
    PhraseView {
        text: variant_of(entry)->0,
        text_traditional: None,
        explanation: entry.bkrs@,
        category: traditional_category(class),
    }
}

/// A traditional variant of the entry is wanted and differs from the simplified phrase.
pub open spec fn has_variant(entry: BkrsEntry, options: ExtractOptions) -> bool {
    options.include_traditional && variant_of(entry) is Some
}

/// The phrases that are extracted of one entry: none if it fails the filters or has no class, else
/// the simplified phrase and behind it the traditional variant where one is to be had.
pub open spec fn entry_phrases(entry: BkrsEntry, options: ExtractOptions) -> Seq<PhraseView> {
    match class_of(entry.sm@, entry.bkrs@, options.min_length, options.max_length) {
        Some(class) if passes_filters(entry, options) => if has_variant(entry, options) {
            seq![phrase_of(entry, class), traditional_phrase_of(entry, class)]
        } else {
            seq![phrase_of(entry, class)]
        },
        _ => Seq::empty(),
    }
}

/// The phrases that some entries have, one entry after the other.
pub open spec fn all_phrases(entries: Seq<BkrsEntry>, options: ExtractOptions) -> Seq<PhraseView>
    decreases entries.len(),
{
    if entries.len() == 0 {
        Seq::empty()
    } else {
        all_phrases(entries.drop_last(), options) + entry_phrases(entries.last(), options)
    }
}

/// The phrases that are extracted of some entries: the first ones that they have, no more than the
/// maximum number.
pub open spec fn extracted(entries: Seq<BkrsEntry>, options: ExtractOptions) -> Seq<PhraseView> {
    let all = all_phrases(entries, options);
    if all.len() <= options.max_count {
        all
    } else {
        all.take(options.max_count as int)
    }
}

/// What a list of phrases says.
pub open spec fn views(phrases: Seq<ExtractedPhrase>) -> Seq<PhraseView> {
    phrases.map_values(|p: ExtractedPhrase| p@)
}

/// The number of phrases that are counted for a class.
pub open spec fn count_of(phrases: Seq<PhraseView>, class: PhraseClass) -> nat {
    phrases.filter(|p: PhraseView| base_class(p.category) == Some(class)).len()
}

/// The number of phrases that are traditional variants.
pub open spec fn count_traditional(phrases: Seq<PhraseView>) -> nat {
    phrases.filter(|p: PhraseView| ends_with(p.category, "_trad"@)).len()
}

/// The statistics of some phrases.
pub open spec fn counts(stats: CategoryStats, phrases: Seq<PhraseView>) -> bool {
    &&& forall|class: PhraseClass| #[trigger] stats.of(class) == count_of(phrases, class)
    &&& stats.traditional_count == count_traditional(phrases)
}

/// What was extracted.
pub struct Extraction {
    /// The phrases.
    pub phrases: Vec<ExtractedPhrase>,
    /// Their statistics.
    pub stats: CategoryStats,
}

proof fn lemma_count_push(phrases: Seq<PhraseView>, phrase: PhraseView)
    ensures
        forall|class: PhraseClass| #[trigger]
            count_of(phrases.push(phrase), class) == count_of(phrases, class) + one_if(
                base_class(phrase.category) == Some(class),
            ),
        count_traditional(phrases.push(phrase)) == count_traditional(phrases) + one_if(
            ends_with(phrase.category, "_trad"@),
        ),
        forall|class: PhraseClass| #[trigger] count_of(phrases, class) <= phrases.len(),
        count_traditional(phrases) <= phrases.len(),
{
    reveal(Seq::filter);
    assert(phrases.push(phrase).drop_last() =~= phrases);
    broadcast use vstd::seq_lib::group_filter_ensures;

}

/// A text does not begin with `part` if they differ in a character.
proof fn lemma_differs(text: Seq<char>, part: Seq<char>, at: int, i: int)
    requires
        0 <= i < part.len(),
        0 <= at + i < text.len() ==> text[at + i] != part[i],
    ensures
        !crate::text::stands_at(text, part, at),
{
    if crate::text::stands_at(text, part, at) {
        assert(text.subrange(at, at + part.len())[i] == text[at + i]);
    }
}

/// The names and categories of a class are counted for that class, and the names of traditional
/// variants alone end in `_trad`.
proof fn lemma_class_names(class: PhraseClass)
    ensures
        base_class(class.spec_name()) == Some(class),
        base_class(class.spec_category()) == Some(class),
        base_class(traditional_category(class)) == Some(class),
        !ends_with(class.spec_name(), "_trad"@),
        !ends_with(class.spec_category(), "_trad"@),
        ends_with(traditional_category(class), "_trad"@),
{
    reveal_strlit("_trad");
    reveal_strlit("classical");
    reveal_strlit("chengyu");
    reveal_strlit("literary");
    reveal_strlit("complex");
    reveal_strlit("classical_idiom");
    reveal_strlit("literary_saying");
    reveal_strlit("complex_phrase");
    let name = class.spec_name();
    let category = class.spec_category();
    let variant = traditional_category(class);
    assert(variant.subrange(variant.len() - 5, variant.len() as int) =~= "_trad"@);
    lemma_differs(name, "_trad"@, name.len() - 5, 4);
    lemma_differs(category, "_trad"@, category.len() - 5, 4);
    assert(name.subrange(0, name.len() as int) =~= name);
    assert(category.subrange(0, name.len() as int) =~= name);
    assert(variant.subrange(0, name.len() as int) =~= name);
    if class != PhraseClass::Classical {
        let i = if class == PhraseClass::Literary { 0int } else { 1int };
        lemma_differs(name, "classical"@, 0, i);
        lemma_differs(category, "classical"@, 0, i);
        lemma_differs(variant, "classical"@, 0, i);
    }
    if class != PhraseClass::Literary {
        lemma_differs(name, "literary"@, 0, 0);
        lemma_differs(category, "literary"@, 0, 0);
        lemma_differs(variant, "literary"@, 0, 0);
    }
    if class == PhraseClass::Complex {
        lemma_differs(name, "chengyu"@, 0, 1);
        lemma_differs(category, "chengyu"@, 0, 1);
        lemma_differs(variant, "chengyu"@, 0, 1);
    }
}

/// Whether an entry passes the filters.
fn is_candidate(entry: &BkrsEntry, options: &ExtractOptions) -> (r: bool)
    ensures
        r == passes_filters(*entry, *options),
{
    let char_count: usize = entry.sm.as_str().unicode_len();
    if char_count < options.min_length || char_count > options.max_length {
        return false;
    }
    let chinese: u128 = count_chinese(entry.sm.as_str()) as u128;
    10 * chinese >= 8 * (char_count as u128)
}

/// Extract the difficult phrases of some entries, with their statistics.
pub fn extract_phrases(entries: &Vec<BkrsEntry>, options: &ExtractOptions) -> (r: Extraction)
    ensures
        views(r.phrases@) == extracted(entries@, *options),
        counts(r.stats, views(r.phrases@)),
{
    let mut phrases: Vec<ExtractedPhrase> = Vec::new();
    let mut stats = CategoryStats::default();
    proof {
        assert(views(phrases@) =~= Seq::empty());
        reveal(Seq::filter);
    }
    for i in 0..entries.len()
        invariant
            views(phrases@) == extracted(entries@.take(i as int), *options),
            counts(stats, views(phrases@)),
    {
        let entry: &BkrsEntry = &entries[i];
        assert(entries@.take(i + 1).drop_last() =~= entries@.take(i as int));
        if phrases.len() < options.max_count && is_candidate(entry, options) {
            if let Some((category, phrase)) = classify_phrase(entry, options) {
                let ghost class = class_of(
                    entry.sm@,
                    entry.bkrs@,
                    options.min_length,
                    options.max_length,
                )->0;
                let ghost before = views(phrases@);
                let explanation: String = phrase.explanation.clone();
                proof {
                    lemma_class_names(class);
                    lemma_count_push(before, phrase@);
                }
                phrases.push(phrase);
                assert(views(phrases@) =~= before.push(phrase_of(*entry, class)));
                stats.increment(category.as_str());
                assert(views(phrases@) =~= before + seq![phrase_of(*entry, class)]);
                if options.include_traditional && phrases.len() < options.max_count {
                    if let Some(trad) = find_variant(entry) {
                        let ghost between = views(phrases@);
                        let mut trad_category: String = category.clone();
                        trad_category.append("_trad");
                        let trad_phrase = ExtractedPhrase {
                            text: trad,
                            text_traditional: None,
                            explanation,
                            category: trad_category.clone(),
                        };
                        proof {
                            lemma_count_push(between, trad_phrase@);
                            assert(stats.of(class) == count_of(between, class));
                        }
                        phrases.push(trad_phrase);
                        assert(views(phrases@) =~= between.push(
                            traditional_phrase_of(*entry, class),
                        ));
                        assert(phrases.len() == between.len() + 1);
                        stats.increment(trad_category.as_str());
                        assert(before + seq![
                            phrase_of(*entry, class),
                            traditional_phrase_of(*entry, class),
                        ] =~= views(phrases@));
                    }
                }
            }
        }
    }
    assert(entries@.take(entries.len() as int) =~= entries@);
    Extraction { phrases, stats }
}

/// The share of a part in percent, rounded down; of nothing every part is taken as of one.
pub open spec fn share(part: usize, total: usize) -> int {
    part * 100 / (if total == 0 {
        1
    } else {
        total as int
    })
}

/// The share of a part in percent, rounded down; of nothing every part is taken as of one.
pub fn percent(part: usize, total: usize) -> (r: usize)
    requires
        part * 100 <= usize::MAX,
    ensures
        r == share(part, total),
{
    if total == 0 {
        part * 100
    } else {
        part * 100 / total
    }
}

proof fn lemma_phrases_have_class(entries: Seq<BkrsEntry>, options: ExtractOptions)
    ensures
        forall|i: int|
            0 <= i < extracted(entries, options).len() ==> base_class(
                (#[trigger] extracted(entries, options)[i]).category,
            ) is Some,
    decreases entries.len(),
{
    if entries.len() > 0 {
        lemma_phrases_have_class(entries.drop_last(), options);
        let front = extracted(entries.drop_last(), options);
        let entry = entries.last();
        match class_of(entry.sm@, entry.bkrs@, options.min_length, options.max_length) {
            Some(class) => lemma_class_names(class),
            None => {},
        }
        assert forall|i: int| 0 <= i < extracted(entries, options).len() implies base_class(
            (#[trigger] extracted(entries, options)[i]).category,
        ) is Some by {
            if i < front.len() {
                assert(extracted(entries, options)[i] == front[i]);
            } else {
                assert(extracted(entries, options)[i] == entry_phrases(entry, options)[i
                    - front.len()]);
            }
        }
    }
}

proof fn lemma_classes_add_up(phrases: Seq<PhraseView>)
    requires
        forall|i: int| 0 <= i < phrases.len() ==> base_class((#[trigger] phrases[i]).category) is Some,
    ensures
        count_of(phrases, PhraseClass::Classical) + count_of(phrases, PhraseClass::Literary)
            + count_of(phrases, PhraseClass::Chengyu) + count_of(phrases, PhraseClass::Complex)
            == phrases.len(),
    decreases phrases.len(),
{
    reveal(Seq::filter);
    if phrases.len() > 0 {
        let front = phrases.drop_last();
        assert forall|i: int| 0 <= i < front.len() implies base_class(
            (#[trigger] front[i]).category,
        ) is Some by {
            assert(front[i] == phrases[i]);
        }
        lemma_classes_add_up(front);
        lemma_count_push(front, phrases.last());
        assert(front.push(phrases.last()) =~= phrases);
        assert(base_class(phrases[phrases.len() - 1].category) is Some);
    }
}

/// Every extracted phrase is counted for exactly one class: the numbers of the four classes add up
/// to the number of phrases.
pub proof fn law_categories_add_up(
    entries: Seq<BkrsEntry>,
    options: ExtractOptions,
    stats: CategoryStats,
)
    requires
        counts(stats, extracted(entries, options)),
    ensures
        stats.classical + stats.literary + stats.chengyu + stats.complex == extracted(
            entries,
            options,
        ).len(),
{
    lemma_phrases_have_class(entries, options);
    lemma_classes_add_up(extracted(entries, options));
    assert(stats.of(PhraseClass::Classical) == stats.classical);
    assert(stats.of(PhraseClass::Literary) == stats.literary);
    assert(stats.of(PhraseClass::Chengyu) == stats.chengyu);
    assert(stats.of(PhraseClass::Complex) == stats.complex);
}

/// No more than the maximum number of phrases is extracted, and as many as there are if there are
/// no more.
pub proof fn law_extraction_is_bounded(entries: Seq<BkrsEntry>, options: ExtractOptions)
    ensures
        extracted(entries, options).len() <= options.max_count,
        extracted(entries, options).len() < options.max_count ==> extracted(entries, options)
            == all_phrases(entries, options),
        extracted(entries, options).is_prefix_of(all_phrases(entries, options)),
{
}

// ---------------------------------------------------------------------------
// Laws of the classes
// ---------------------------------------------------------------------------

/// Classical comes first: an explanation of more than 10 characters with one of the idiom words
/// makes a phrase a classical idiom, whatever else fits, and nothing else does.
pub proof fn law_classical(
    text: Seq<char>,
    explanation: Seq<char>,
    min_length: usize,
    max_length: usize,
)
    ensures
        class_of(text, explanation, min_length, max_length) == Some(PhraseClass::Classical) <==> {
            &&& explanation.len() > 10
            &&& contains(explanation, "比喻"@) || contains(explanation, "形容"@) || contains(
                explanation,
                "指"@,
            ) || contains(explanation, "原比喻"@) || contains(explanation, "后用作"@) || contains(
                explanation,
                "用作"@,
            )
        },
        explanation.len() <= 10 ==> class_of(text, explanation, min_length, max_length) is None,
{
}

/// Chengyu come next: of phrases whose explanation has no idiom word, those of four Chinese
/// characters with an explanation of more than 15 characters, and no others. No bound on the length
/// keeps them out.
pub proof fn law_chengyu(
    text: Seq<char>,
    explanation: Seq<char>,
    min_length: usize,
    max_length: usize,
)
    ensures
        class_of(text, explanation, min_length, max_length) == Some(PhraseClass::Chengyu) <==> {
            &&& text.len() == 4
            &&& is_chinese(text[0]) && is_chinese(text[1]) && is_chinese(text[2]) && is_chinese(
                text[3],
            )
            &&& explanation.len() > 15
            &&& class_of(text, explanation, min_length, max_length) != Some(PhraseClass::Classical)
        },
{
}

/// Literary sayings come third: of phrases whose explanation has no idiom word, those of 8 to 25
/// characters with a comma and an explanation of more than 10 characters, and no others.
pub proof fn law_literary(
    text: Seq<char>,
    explanation: Seq<char>,
    min_length: usize,
    max_length: usize,
)
    ensures
        class_of(text, explanation, min_length, max_length) == Some(PhraseClass::Literary) <==> {
            &&& 8 <= text.len() <= 25
            &&& contains(text, "，"@)
            &&& explanation.len() > 10
            &&& class_of(text, explanation, min_length, max_length) != Some(PhraseClass::Classical)
        },
{
}

/// Complex phrases come last: within the bounds on the length, with an explanation of more than 20
/// characters, more than seven in ten of their characters Chinese, and of none of the other classes
/// by what makes those.
pub proof fn law_complex(
    text: Seq<char>,
    explanation: Seq<char>,
    min_length: usize,
    max_length: usize,
)
    ensures
        class_of(text, explanation, min_length, max_length) == Some(PhraseClass::Complex) <==> {
            &&& min_length <= text.len() <= max_length
            &&& explanation.len() > 20
            &&& 10 * chinese_chars(text) > 7 * text.len()
            &&& !contains(explanation, "比喻"@)
            &&& !contains(explanation, "形容"@)
            &&& !contains(explanation, "指"@)
            &&& !contains(explanation, "原比喻"@)
            &&& !contains(explanation, "后用作"@)
            &&& !contains(explanation, "用作"@)
            &&& !(text.len() == 4 && is_chinese(text[0]) && is_chinese(text[1]) && is_chinese(
                text[2],
            ) && is_chinese(text[3]))
            &&& !(8 <= text.len() <= 25 && contains(text, "，"@))
        },
{
}

/// What is extracted of an entry: nothing where its length is out of bounds, fewer than eight in ten
/// of its characters are Chinese, or it has no class; else the simplified phrase with its
/// explanation and its traditional variant, if that differs, and behind it, where it is wanted, the
/// variant as a phrase of its own.
pub proof fn law_entry_phrases(entry: BkrsEntry, options: ExtractOptions)
    ensures
        ({
            let class = class_of(entry.sm@, entry.bkrs@, options.min_length, options.max_length);
            let found = entry_phrases(entry, options);
            &&& found.len() > 0 <==> class is Some && options.min_length <= entry.sm@.len()
                && entry.sm@.len() <= options.max_length && 10 * chinese_chars(entry.sm@) >= 8
                * entry.sm@.len()
            &&& found.len() <= 2
            &&& found.len() > 0 ==> {
                &&& found[0].text == entry.sm@
                &&& found[0].explanation == entry.bkrs@
                &&& found[0].category == class->0.spec_category()
                &&& entry.tr is None ==> found[0].text_traditional is None
                &&& entry.tr is Some && entry.tr->0@ == entry.sm@
                    ==> found[0].text_traditional is None
                &&& entry.tr is Some && entry.tr->0@ != entry.sm@ ==> found[0].text_traditional
                    == Some(entry.tr->0@)
                &&& found.len() == 2 <==> options.include_traditional && entry.tr is Some
                    && entry.tr->0@ != entry.sm@
            }
            &&& found.len() == 2 ==> {
                &&& found[1].text == entry.tr->0@
                &&& found[1].explanation == entry.bkrs@
                &&& found[1].category == class->0.spec_name() + "_trad"@
                &&& found[1].text_traditional is None
            }
        }),
{
}

/// The entry of a phrase that is classified gives the phrase its text, its explanation and, if it is
/// different, its traditional variant.
pub proof fn law_classified_phrase(entry: BkrsEntry, class: PhraseClass, phrase: ExtractedPhrase)
    requires
        phrase@ == phrase_of(entry, class),
    ensures
        phrase.text@ == entry.sm@,
        phrase.explanation@ == entry.bkrs@,
        phrase.category@ == class.spec_category(),
        phrase.text_traditional is Some <==> entry.tr is Some && entry.tr->0@ != entry.sm@,
        phrase.text_traditional is Some ==> phrase.text_traditional->0@ == entry.tr->0@,
{
}

/// The names of the classes and of their categories.
pub proof fn law_class_names()
    ensures
        PhraseClass::Classical.spec_name() == "classical"@,
        PhraseClass::Chengyu.spec_name() == "chengyu"@,
        PhraseClass::Literary.spec_name() == "literary"@,
        PhraseClass::Complex.spec_name() == "complex"@,
        PhraseClass::Classical.spec_category() == "classical_idiom"@,
        PhraseClass::Chengyu.spec_category() == "chengyu"@,
        PhraseClass::Literary.spec_category() == "literary_saying"@,
        PhraseClass::Complex.spec_category() == "complex_phrase"@,
{
}

/// Entries are taken one behind the other: one more entry adds its phrases behind all others, as far
/// as the maximum number allows, and never changes what is there.
pub proof fn law_extraction_of_one_more(
    entries: Seq<BkrsEntry>,
    entry: BkrsEntry,
    options: ExtractOptions,
)
    ensures
        extracted(Seq::empty(), options) == Seq::<PhraseView>::empty(),
        extracted(entries, options).is_prefix_of(extracted(entries.push(entry), options)),
        extracted(entries, options).len() <= options.max_count,
        extracted(entries, options).len() + entry_phrases(entry, options).len() <= options.max_count
            ==> extracted(entries.push(entry), options) == extracted(entries, options)
            + entry_phrases(entry, options),
        extracted(entries, options).len() + entry_phrases(entry, options).len() > options.max_count
            ==> extracted(entries.push(entry), options) == (extracted(entries, options)
            + entry_phrases(entry, options)).take(options.max_count as int),
{
    assert(entries.push(entry).drop_last() =~= entries);
    let all = all_phrases(entries, options);
    let more = entry_phrases(entry, options);
    if all.len() > options.max_count {
        assert((all + more).take(options.max_count as int) =~= all.take(options.max_count as int));
        assert((all.take(options.max_count as int) + more).take(options.max_count as int)
            =~= all.take(options.max_count as int));
        if more.len() == 0 {
            assert(all.take(options.max_count as int) + more =~= all.take(
                options.max_count as int,
            ));
        }
    } else {
        assert((all + more).take(all.len() as int) =~= all);
    }
}

/// A category is counted by how its name begins, and as a traditional variant by how it ends.
pub proof fn law_base_class(category: Seq<char>)
    ensures
        base_class(category) == Some(PhraseClass::Classical) <==> starts_with(
            category,
            "classical"@,
        ),
        base_class(category) == Some(PhraseClass::Literary) <==> starts_with(category, "literary"@),
        base_class(category) == Some(PhraseClass::Chengyu) <==> starts_with(category, "chengyu"@),
        base_class(category) == Some(PhraseClass::Complex) <==> starts_with(category, "complex"@),
{
    reveal_strlit("classical");
    reveal_strlit("literary");
    reveal_strlit("chengyu");
    reveal_strlit("complex");
    if starts_with(category, "literary"@) {
        assert(category.subrange(0, 8)[0] == category[0]);
        lemma_differs(category, "classical"@, 0, 0);
    }
    if starts_with(category, "chengyu"@) {
        assert(category.subrange(0, 7)[0] == category[0]);
        assert(category.subrange(0, 7)[1] == category[1]);
        lemma_differs(category, "classical"@, 0, 1);
        lemma_differs(category, "literary"@, 0, 0);
    }
    if starts_with(category, "complex"@) {
        assert(category.subrange(0, 7)[0] == category[0]);
        assert(category.subrange(0, 7)[1] == category[1]);
        lemma_differs(category, "classical"@, 0, 1);
        lemma_differs(category, "literary"@, 0, 0);
        lemma_differs(category, "chengyu"@, 0, 1);
    }
}

/// One more phrase raises the number of the class that its category begins with by one, and of
/// traditional variants if it ends in `_trad`; it leaves the others as they are. Without phrases
/// all numbers are 0.
pub proof fn law_stats_of_one_more(
    phrases: Seq<PhraseView>,
    phrase: PhraseView,
    before: CategoryStats,
    after: CategoryStats,
)
    requires
        counts(before, phrases),
        counts(after, phrases.push(phrase)),
    ensures
        phrases.len() == 0 ==> before.classical == 0 && before.literary == 0 && before.chengyu == 0
            && before.complex == 0 && before.traditional_count == 0,
        after.classical == before.classical + one_if(starts_with(phrase.category, "classical"@)),
        after.literary == before.literary + one_if(starts_with(phrase.category, "literary"@)),
        after.chengyu == before.chengyu + one_if(starts_with(phrase.category, "chengyu"@)),
        after.complex == before.complex + one_if(starts_with(phrase.category, "complex"@)),
        after.traditional_count == before.traditional_count + one_if(
            ends_with(phrase.category, "_trad"@),
        ),
        one_if(true) == 1 && one_if(false) == 0,
{
    lemma_count_push(phrases, phrase);
    law_base_class(phrase.category);
    reveal(Seq::filter);
    assert(before.of(PhraseClass::Classical) == before.classical);
    assert(before.of(PhraseClass::Literary) == before.literary);
    assert(before.of(PhraseClass::Chengyu) == before.chengyu);
    assert(before.of(PhraseClass::Complex) == before.complex);
    assert(after.of(PhraseClass::Classical) == after.classical);
    assert(after.of(PhraseClass::Literary) == after.literary);
    assert(after.of(PhraseClass::Chengyu) == after.chengyu);
    assert(after.of(PhraseClass::Complex) == after.complex);
}

/// A percentage is rounded down: it is the largest number of hundredths of the whole that the part
/// holds. The whole is 100%, and of nothing every part is taken as of one.
pub proof fn law_percentages(part: usize, total: usize)
    ensures
        total > 0 ==> share(part, total) * total <= part * 100 < (share(part, total) + 1) * total,
        total > 0 ==> share(total, total) == 100,
        share(part, 0) == part * 100,
{
    if total > 0 {
        let (n, d) = (part * 100, total as int);
        vstd::arithmetic::div_mod::lemma_fundamental_div_mod(n, d);
        vstd::arithmetic::div_mod::lemma_mod_bound(n, d);
        let q = n / d;
        assert(d * q == q * d && (q + 1) * d == q * d + d) by (nonlinear_arith);
        assert(total * 100 == d * 100);
        vstd::arithmetic::div_mod::lemma_div_multiples_vanish(100, d);
        assert(d * 100 == 100 * d) by (nonlinear_arith);
    }
}

} // verus!
