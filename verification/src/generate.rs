//! Synthetic sentences for training, each made of words of a given difficulty.
use crate::chance::{Pick, Roll, Toss};
use crate::vocab::{vocab_get, vocab_words};
use rustc_hash::FxHashMap;
use vstd::prelude::*;

verus! {

use crate::vocab::{entries, lemma_filter_part, lists_words, texts};

/// The highest level of the TOP dictionary.
pub const MAX_TOP_LEVEL: u32 = 4;

/// How many attempts are made for each sentence that is wanted.
pub const ATTEMPTS_PER_SENTENCE: usize = 50;

// ---------------------------------------------------------------------------
// Words
// ---------------------------------------------------------------------------

/// The word may stand in a sentence for levels `min_level` to `max_level`: its TOP level is one of
/// them, and the HSK vocabulary holds it at no higher level.
pub open spec fn is_pure(
    top: Map<Seq<char>, u32>,
    hsk: Map<Seq<char>, u32>,
    min_level: u32,
    max_level: u32,
    word: Seq<char>,
) -> bool {
    &&& top.contains_key(word)
    &&& min_level <= top[word] <= max_level
    &&& hsk.contains_key(word)
    &&& hsk[word] <= max_level
}

/// The word may stand in a sentence and has the given TOP level.
pub open spec fn is_pure_at(
    top: Map<Seq<char>, u32>,
    hsk: Map<Seq<char>, u32>,
    level: u32,
    max_level: u32,
    word: Seq<char>,
) -> bool {
    is_pure(top, hsk, level, max_level, word) && top[word] == level
}

/// Those of the listed words that may stand in a sentence and have the given TOP level.
pub open spec fn words_at(
    listed: Seq<Seq<char>>,
    top: Map<Seq<char>, u32>,
    hsk: Map<Seq<char>, u32>,
    level: u32,
    max_level: u32,
) -> Seq<Seq<char>> {
    listed.filter(|w: Seq<char>| is_pure_at(top, hsk, level, max_level, w))
}

/// The words for levels `min_level` to `level`, level by level, and in each level as listed.
pub open spec fn word_pool(
    listed: Seq<Seq<char>>,
    top: Map<Seq<char>, u32>,
    hsk: Map<Seq<char>, u32>,
    min_level: u32,
    level: u32,
    max_level: u32,
) -> Seq<Seq<char>>
    decreases level,
{
    if level < min_level {
        Seq::empty()
    } else if level == 0 {
        words_at(listed, top, hsk, level, max_level)
    } else {
        word_pool(listed, top, hsk, min_level, (level - 1) as u32, max_level) + words_at(
            listed,
            top,
            hsk,
            level,
            max_level,
        )
    }
}

/// Append those of the listed words that may stand in a sentence and have the given TOP level.
fn append_words_at(
    pool: &mut Vec<String>,
    listed: &Vec<String>,
    top_vocab: &FxHashMap<String, u32>,
    hsk_vocab: &FxHashMap<String, u32>,
    level: u32,
    max_level: u32,
)
    requires
        level <= max_level,
    ensures
        texts(final(pool)@) == texts(old(pool)@) + words_at(
            texts(listed@),
            entries(*top_vocab),
            entries(*hsk_vocab),
            level,
            max_level,
        ),
{
    let ghost all = texts(listed@);
    let ghost given = texts(pool@);
    let ghost (top, hsk) = (entries(*top_vocab), entries(*hsk_vocab));
    let ghost keep = |w: Seq<char>| is_pure_at(top, hsk, level, max_level, w);
    assert(given + all.take(0).filter(keep) =~= given) by {
        reveal(Seq::filter);
    }
    for i in 0..listed.len()
        invariant
            level <= max_level,
            all == texts(listed@),
            top == entries(*top_vocab),
            hsk == entries(*hsk_vocab),
            keep == (|w: Seq<char>| is_pure_at(top, hsk, level, max_level, w)),
            texts(pool@) == given + all.take(i as int).filter(keep),
    {
        let word: &String = &listed[i];
        proof {
            reveal(Seq::filter);
            assert(all.take(i + 1).drop_last() =~= all.take(i as int));
            assert(texts(pool@.push(*word)) =~= texts(pool@).push(word@));
        }
        let top_level: Option<u32> = vocab_get(top_vocab, word.as_str());
        let hsk_level: Option<u32> = vocab_get(hsk_vocab, word.as_str());
        let fits: bool = match (top_level, hsk_level) {
            (Some(t), Some(h)) => t == level && h <= max_level,
            _ => false,
        };
        if fits {
            pool.push(word.clone());
        }
    }
    assert(all.take(listed.len() as int) =~= all);
}

/// Collect the words for levels `min_level` to `max_level` from a list of words.
pub fn pool_from_list(
    listed: &Vec<String>,
    top_vocab: &FxHashMap<String, u32>,
    hsk_vocab: &FxHashMap<String, u32>,
    min_level: u32,
    max_level: u32,
) -> (pool: Vec<String>)
    ensures
        texts(pool@) == word_pool(
            texts(listed@),
            entries(*top_vocab),
            entries(*hsk_vocab),
            min_level,
            max_level,
            max_level,
        ),
{
    let ghost all = texts(listed@);
    let ghost (top, hsk) = (entries(*top_vocab), entries(*hsk_vocab));
    let mut pool: Vec<String> = Vec::new();
    assert(texts(pool@) =~= Seq::empty());
    if min_level > max_level {
        return pool;
    }
    let mut level: u32 = min_level;
    append_words_at(&mut pool, listed, top_vocab, hsk_vocab, level, max_level);
    proof {
        reveal_with_fuel(word_pool, 2);
        assert(texts(pool@) =~= word_pool(all, top, hsk, min_level, level, max_level));
    }
    while level < max_level
        invariant
            all == texts(listed@),
            top == entries(*top_vocab),
            hsk == entries(*hsk_vocab),
            min_level <= level <= max_level,
            texts(pool@) == word_pool(all, top, hsk, min_level, level, max_level),
        decreases max_level - level,
    {
        level = level + 1;
        append_words_at(&mut pool, listed, top_vocab, hsk_vocab, level, max_level);
    }
    pool
}

/// Common particles and function words (very frequent).
pub open spec fn particles() -> Seq<Seq<char>> {
    seq![
        "的"@,
        "了"@,
        "在"@,
        "是"@,
        "很"@,
        "也"@,
        "都"@,
        "和"@,
        "有"@,
        "不"@,
        "吗"@,
        "呢"@,
        "吧"@,
        "着"@,
        "我"@,
        "你"@,
        "他"@,
        "她"@,
        "们"@,
        "这"@,
        "那"@,
        "什么"@,
        "怎么"@,
    ]
}

/// Common particles and function words (very frequent).
pub fn particle_list() -> (words: Vec<String>)
    ensures
        texts(words@) == particles(),
{
    let mut words: Vec<String> = Vec::new();
    words.push("的".to_owned());
    words.push("了".to_owned());
    words.push("在".to_owned());
    words.push("是".to_owned());
    words.push("很".to_owned());
    words.push("也".to_owned());
    words.push("都".to_owned());
    words.push("和".to_owned());
    words.push("有".to_owned());
    words.push("不".to_owned());
    words.push("吗".to_owned());
    words.push("呢".to_owned());
    words.push("吧".to_owned());
    words.push("着".to_owned());
    words.push("我".to_owned());
    words.push("你".to_owned());
    words.push("他".to_owned());
    words.push("她".to_owned());
    words.push("们".to_owned());
    words.push("这".to_owned());
    words.push("那".to_owned());
    words.push("什么".to_owned());
    words.push("怎么".to_owned());
    assert(texts(words@) =~= particles());
    words
}

// ---------------------------------------------------------------------------
// Sentences
// ---------------------------------------------------------------------------

/// Some texts, one behind the other.
pub open spec fn joined(words: Seq<Seq<char>>) -> Seq<char>
    decreases words.len(),
{
    if words.len() == 0 {
        Seq::empty()
    } else {
        joined(words.drop_last()) + words.last()
    }
}

/// The mark at the end of a sentence: a question mark if it is a question, else an exclamation
/// mark if it is an exclamation, else a full stop.
pub open spec fn ending(question: bool, exclamation: bool) -> Seq<char> {
    if question {
        "？"@
    } else if exclamation {
        "！"@
    } else {
        "。"@
    }
}

/// The sentence of some words, if it has a reasonable length: at least three words, and from 5 to
/// 80 characters with the mark at its end.
pub open spec fn sentence_of(
    words: Seq<Seq<char>>,
    question: bool,
    exclamation: bool,
) -> Option<Seq<char>> {
    let sentence = joined(words) + ending(question, exclamation);
    if words.len() >= 3 && 5 <= sentence.len() <= 80 {
        Some(sentence)
    } else {
        None
    }
}

/// Compose a sentence of words that were drawn.
pub fn compose_sentence(words: &Vec<String>, question: bool, exclamation: bool) -> (r: Option<String>)
    ensures
        match r {
            Some(sentence) => sentence_of(texts(words@), question, exclamation) == Some(sentence@),
            None => sentence_of(texts(words@), question, exclamation) is None,
        },
{
    if words.len() < 3 {
        return None;
    }
    let ghost all = texts(words@);
    let mut sentence: String = String::new();
    for i in 0..words.len()
        invariant
            all == texts(words@),
            sentence@ == joined(all.take(i as int)),
    {
        assert(all.take(i + 1).drop_last() =~= all.take(i as int));
        sentence.append(words[i].as_str());
    }
    assert(all.take(words.len() as int) =~= all);
    let mark: &str = if question {
        "？"
    } else if exclamation {
        "！"
    } else {
        "。"
    };
    sentence.append(mark);
    let char_count: usize = sentence.as_str().unicode_len();
    if char_count >= 5 && char_count <= 80 {
        Some(sentence)
    } else {
        None
    }
}

// ---------------------------------------------------------------------------
// Attempts
// ---------------------------------------------------------------------------

/// The range of the number of words of a sentence: shorter for easier levels, longer for harder.
pub open spec fn length_range(max_level: u32) -> (usize, usize) {
    if max_level <= 2 {
        (3, 7)
    } else {
        (5, 10)
    }
}

/// The range of the number of words of a sentence.
pub fn length_bounds(max_level: u32) -> (r: (usize, usize))
    ensures
        r == length_range(max_level),
{
    if max_level <= 2 {
        (3, 7)
    } else {
        (5, 10)
    }
}

/// What a coin decides.
#[derive(Clone, Copy, Debug, PartialEq, Eq, Structural)]
pub enum Coin {
    /// Whether a word is a particle.
    Particle,
    /// Whether a sentence is a question.
    Question,
    /// Whether a sentence that is no question is an exclamation.
    Exclamation,
}

/// The odds of a yes: how often it comes up, and in how many tosses.
pub open spec fn odds(coin: Coin) -> (u32, u32) {
    match coin {
        Coin::Particle => (3, 10),
        Coin::Question => (15, 100),
        Coin::Exclamation => (1, 10),
    }
}

/// The odds of a yes: how often it comes up, and in how many tosses.
pub fn odds_of(coin: Coin) -> (r: (u32, u32))
    ensures
        r == odds(coin),
{
    match coin {
        Coin::Particle => (3, 10),
        Coin::Question => (15, 100),
        Coin::Exclamation => (1, 10),
    }
}

fn toss(coin: Coin) -> (t: Toss)
    ensures
        t.odds() == odds(coin),
{
    let (numerator, denominator) = odds_of(coin);
    Toss::throw(numerator, denominator)
}

/// The words that a word is picked from: the particles if it is to be a particle, else the pool.
pub fn word_source<'a>(
    is_particle: bool,
    common: &'a Vec<String>,
    pool: &'a Vec<String>,
) -> (r: &'a Vec<String>)
    ensures
        r@ == (if is_particle {
            common@
        } else {
            pool@
        }),
{
    if is_particle {
        common
    } else {
        pool
    }
}

/// What an attempt at a sentence came to.
pub struct Attempt {
    /// For each word whether it was to be a particle.
    pub coins: Vec<bool>,
    /// The words.
    pub words: Vec<String>,
    /// Whether the sentence is a question.
    pub question: bool,
    /// Whether the sentence is an exclamation.
    pub exclamation: bool,
}

/// What an attempt says.
pub struct AttemptView {
    /// For each word whether it was to be a particle.
    pub coins: Seq<bool>,
    /// The words.
    pub words: Seq<Seq<char>>,
    /// Whether the sentence is a question.
    pub question: bool,
    /// Whether the sentence is an exclamation.
    pub exclamation: bool,
}

impl View for Attempt {
    type V = AttemptView;

    open spec fn view(&self) -> AttemptView {
        AttemptView {
            coins: self.coins@,
            words: texts(self.words@),
            question: self.question,
            exclamation: self.exclamation,
        }
    }
}

/// Each word is a particle if its coin says so, else a word of the pool.
pub open spec fn is_drawn_from(
    words: Seq<Seq<char>>,
    coins: Seq<bool>,
    pool: Seq<Seq<char>>,
) -> bool {
    &&& coins.len() == words.len()
    &&& forall|i: int|
        0 <= i < words.len() ==> if coins[i] {
            particles().contains(#[trigger] words[i])
        } else {
            pool.contains(words[i])
        }
}

/// The attempt has as many words as the level asks for, each one a particle or a word of the pool
/// as its coin says.
pub open spec fn is_attempt(
    attempt: AttemptView,
    pool: Seq<Seq<char>>,
    max_level: u32,
) -> bool {
    &&& length_range(max_level).0 <= attempt.words.len() < length_range(max_level).1
    &&& is_drawn_from(attempt.words, attempt.coins, pool)
}

/// The sentence of an attempt, if it has a reasonable length.
pub open spec fn attempt_sentence(attempt: AttemptView) -> Option<Seq<char>> {
    sentence_of(attempt.words, attempt.question, attempt.exclamation)
}

/// `sentence` comes from an attempt.
pub open spec fn is_generated(
    sentence: Seq<char>,
    pool: Seq<Seq<char>>,
    max_level: u32,
) -> bool {
    exists|attempt: AttemptView| #[trigger]
        is_attempt(attempt, pool, max_level) && attempt_sentence(attempt) == Some(sentence)
}

/// All of them are attempts.
pub open spec fn are_attempts(
    attempts: Seq<AttemptView>,
    pool: Seq<Seq<char>>,
    max_level: u32,
) -> bool {
    forall|i: int|
        0 <= i < attempts.len() ==> is_attempt(#[trigger] attempts[i], pool, max_level)
}

/// The sentences that are kept of some attempts: those of a reasonable length, in order.
pub open spec fn kept(attempts: Seq<AttemptView>) -> Seq<Seq<char>>
    decreases attempts.len(),
{
    if attempts.len() == 0 {
        Seq::empty()
    } else {
        let front = kept(attempts.drop_last());
        match attempt_sentence(attempts.last()) {
            Some(sentence) => front.push(sentence),
            None => front,
        }
    }
}

/// The attempts end where they should: none was made once `count` sentences were kept, and there
/// are `limit` of them if fewer sentences were kept.
pub open spec fn is_complete(attempts: Seq<AttemptView>, count: int, limit: int) -> bool {
    &&& attempts.len() <= limit
    &&& kept(attempts).len() <= count
    &&& attempts.len() > 0 ==> kept(attempts.drop_last()).len() < count
    &&& kept(attempts).len() < count ==> attempts.len() == limit
}

/// What some attempts say.
pub open spec fn attempt_views(attempts: Seq<Attempt>) -> Seq<AttemptView> {
    attempts.map_values(|a: Attempt| a@)
}

/// Sentences that were generated.
pub struct Generated {
    /// The sentences.
    pub sentences: Vec<String>,
    /// The number of attempts that were made.
    pub attempts: usize,
}

/// Keep the sentence of an attempt if it has a reasonable length.
fn keep_sentence(sentences: &mut Vec<String>, attempt: &Attempt)
    ensures
        texts(final(sentences)@) == (match attempt_sentence(attempt@) {
            Some(sentence) => texts(old(sentences)@).push(sentence),
            None => texts(old(sentences)@),
        }),
{
    if let Some(sentence) = compose_sentence(
        &attempt.words,
        attempt.question,
        attempt.exclamation,
    ) {
        assert(texts(sentences@.push(sentence)) =~= texts(sentences@).push(sentence@));
        sentences.push(sentence);
    }
}

/// Keep the sentences of attempts that were made, until there are `count` of them or the attempts
/// are used up.
pub fn keep_sentences(attempts: &Vec<Attempt>, count: usize) -> (r: Generated)
    ensures
        r.attempts <= attempts.len(),
        texts(r.sentences@) == kept(attempt_views(attempts@).take(r.attempts as int)),
        is_complete(
            attempt_views(attempts@).take(r.attempts as int),
            count as int,
            attempts.len() as int,
        ),
{
    let ghost all = attempt_views(attempts@);
    let mut sentences: Vec<String> = Vec::new();
    let mut used: usize = 0;
    assert(texts(sentences@) =~= kept(all.take(0)));
    while sentences.len() < count && used < attempts.len()
        invariant
            all == attempt_views(attempts@),
            used <= attempts.len(),
            sentences.len() <= count,
            texts(sentences@) == kept(all.take(used as int)),
            used > 0 ==> kept(all.take(used as int).drop_last()).len() < count,
        decreases attempts.len() - used,
    {
        keep_sentence(&mut sentences, &attempts[used]);
        used = used + 1;
        proof {
            assert(all.take(used as int).drop_last() =~= all.take(used - 1));
            assert(all.take(used as int).last() == attempts[used - 1]@);
            assert(texts(sentences@).len() == sentences.len());
        }
    }
    Generated { sentences, attempts: used }
}

// ---------------------------------------------------------------------------
// Draws
// ---------------------------------------------------------------------------

/// What chance decided in an attempt.
pub struct Draw {
    /// The number of words.
    pub length: Roll,
    /// For each word whether it is a particle.
    pub tosses: Seq<Toss>,
    /// The words.
    pub picks: Seq<Pick>,
    /// Whether the sentence is a question.
    pub question: Toss,
    /// Whether a sentence that is no question is an exclamation.
    pub exclamation: Option<Toss>,
}

/// What an attempt comes to by what chance decided in it.
pub open spec fn attempt_of(draw: Draw) -> AttemptView {
    AttemptView {
        coins: draw.tosses.map_values(|t: Toss| t.came_up()),
        words: draw.picks.map_values(|p: Pick| p.text()),
        question: draw.question.came_up(),
        exclamation: draw.exclamation is Some && draw.exclamation->0.came_up(),
    }
}

/// Chance was asked for what an attempt needs, and nothing else:
/// - a number of words in the range of the level,
/// - for each of them a toss with the odds of a particle, and one of the particles or of the words
///   of the pool as the toss came up,
/// - a toss with the odds of a question, and if it is none, a toss with the odds of an exclamation.
pub open spec fn is_draw(draw: Draw, pool: Seq<Seq<char>>, max_level: u32) -> bool {
    &&& draw.length.range() == length_range(max_level)
    &&& draw.tosses.len() == draw.length.number()
    &&& draw.picks.len() == draw.length.number()
    &&& forall|i: int|
        0 <= i < draw.tosses.len() ==> (#[trigger] draw.tosses[i]).odds() == odds(Coin::Particle)
    &&& forall|i: int|
        0 <= i < draw.picks.len() ==> (#[trigger] draw.picks[i]).source() == (
        if draw.tosses[i].came_up() {
            particles()
        } else {
            pool
        })
    &&& draw.question.odds() == odds(Coin::Question)
    &&& draw.exclamation is Some <==> !draw.question.came_up()
    &&& draw.exclamation is Some ==> draw.exclamation->0.odds() == odds(Coin::Exclamation)
    &&& is_attempt(attempt_of(draw), pool, max_level)
}

/// All of them are draws.
pub open spec fn are_draws(draws: Seq<Draw>, pool: Seq<Seq<char>>, max_level: u32) -> bool {
    forall|i: int| 0 <= i < draws.len() ==> is_draw(#[trigger] draws[i], pool, max_level)
}

/// What some attempts come to by what chance decided in them.
pub open spec fn attempts_of(draws: Seq<Draw>) -> Seq<AttemptView> {
    draws.map_values(|d: Draw| attempt_of(d))
}

/// Draw the words and the mark of a sentence.
fn draw_attempt(pool: &Vec<String>, common: &Vec<String>, max_level: u32) -> (attempt: Attempt)
    requires
        pool.len() > 0,
        texts(common@) == particles(),
    ensures
        exists|draw: Draw| #[trigger]
            is_draw(draw, texts(pool@), max_level) && attempt_of(draw) == attempt@,
{
    let (low, high) = length_bounds(max_level);
    let length = Roll::throw(low, high);
    let n: usize = length.value();
    let ghost mut tosses: Seq<Toss> = Seq::empty();
    let ghost mut picks: Seq<Pick> = Seq::empty();
    let mut coins: Vec<bool> = Vec::new();
    let mut words: Vec<String> = Vec::new();
    for i in 0..n
        invariant
            pool.len() > 0,
            texts(common@) == particles(),
            tosses.len() == i,
            picks.len() == i,
            coins.len() == i,
            words.len() == i,
            forall|j: int|
                0 <= j < i ==> (#[trigger] tosses[j]).odds() == odds(Coin::Particle)
                    && tosses[j].came_up() == coins[j],
            forall|j: int|
                0 <= j < i ==> (#[trigger] picks[j]).source() == (if tosses[j].came_up() {
                    particles()
                } else {
                    texts(pool@)
                }) && picks[j].text() == words[j]@,
            is_drawn_from(texts(words@), coins@, texts(pool@)),
    {
        let coin = toss(Coin::Particle);
        let is_particle: bool = coin.is_yes();
        let source: &Vec<String> = word_source(is_particle, common, pool);
        assert(common.len() == particles().len());
        if let Some(pick) = Pick::from_words(source) {
            proof {
                tosses = tosses.push(coin);
                picks = picks.push(pick);
            }
            let word: String = pick.into_word();
            assert(texts(words@.push(word)) =~= texts(words@).push(word@));
            coins.push(is_particle);
            words.push(word);
        }
    }
    let question = toss(Coin::Question);
    let is_question: bool = question.is_yes();
    let ghost mut exclamation: Option<Toss> = None;
    let mut is_exclamation: bool = false;
    if !is_question {
        let coin = toss(Coin::Exclamation);
        is_exclamation = coin.is_yes();
        proof {
            exclamation = Some(coin);
        }
    }
    let attempt = Attempt { coins, words, question: is_question, exclamation: is_exclamation };
    proof {
        let draw = Draw { length, tosses, picks, question, exclamation };
        assert(attempt_of(draw).coins =~= attempt@.coins);
        assert(attempt_of(draw).words =~= attempt@.words);
        assert(is_draw(draw, texts(pool@), max_level));
    }
    attempt
}

/// Generate sentences from a pool of words.
///
/// Chance decides what is drawn in an attempt. Every sentence of a reasonable length is kept, until
/// there are `count` of them or the attempts are used up.
pub fn generate_from_pool(count: usize, pool: &Vec<String>, max_level: u32) -> (r: Generated)
    requires
        max_level <= MAX_TOP_LEVEL ==> count * ATTEMPTS_PER_SENTENCE <= usize::MAX,
    ensures
        exists|draws: Seq<Draw>|
            {
                &&& draws.len() == r.attempts
                &&& #[trigger] are_draws(draws, texts(pool@), max_level)
                &&& texts(r.sentences@) == kept(attempts_of(draws))
                &&& pool.len() > 0 && max_level <= MAX_TOP_LEVEL ==> is_complete(
                    attempts_of(draws),
                    count as int,
                    count * ATTEMPTS_PER_SENTENCE,
                )
            },
        pool.len() == 0 || max_level > MAX_TOP_LEVEL ==> r.sentences.len() == 0 && r.attempts == 0,
        r.sentences.len() <= count,
        r.sentences.len() <= r.attempts <= count * ATTEMPTS_PER_SENTENCE,
        forall|i: int|
            0 <= i < r.sentences.len() ==> is_generated(
                (#[trigger] r.sentences[i])@,
                texts(pool@),
                max_level,
            ),
{
    let mut sentences: Vec<String> = Vec::new();
    let mut attempts: usize = 0;
    let ghost mut draws: Seq<Draw> = Seq::empty();
    assert(texts(sentences@) =~= kept(attempts_of(draws)));
    assert(are_draws(draws, texts(pool@), max_level));
    if pool.len() == 0 || max_level > MAX_TOP_LEVEL {
        return Generated { sentences, attempts };
    }
    let common = particle_list();
    let max_attempts: usize = count * ATTEMPTS_PER_SENTENCE;
    while sentences.len() < count && attempts < max_attempts
        invariant
            pool.len() > 0,
            max_level <= MAX_TOP_LEVEL,
            max_attempts == count * ATTEMPTS_PER_SENTENCE,
            texts(common@) == particles(),
            sentences.len() <= count,
            attempts <= max_attempts,
            draws.len() == attempts,
            are_draws(draws, texts(pool@), max_level),
            texts(sentences@) == kept(attempts_of(draws)),
            draws.len() > 0 ==> kept(attempts_of(draws).drop_last()).len() < count,
        decreases max_attempts - attempts,
    {
        let attempt = draw_attempt(pool, &common, max_level);
        proof {
            let draw = choose|draw: Draw| #[trigger]
                is_draw(draw, texts(pool@), max_level) && attempt_of(draw) == attempt@;
            let before = draws;
            draws = draws.push(draw);
            assert(attempts_of(draws).drop_last() =~= attempts_of(before));
            assert(attempts_of(draws).last() == attempt@);
            assert(texts(sentences@).len() == sentences.len());
        }
        keep_sentence(&mut sentences, &attempt);
        attempts = attempts + 1;
        assert(texts(sentences@).len() == sentences.len());
    }
    proof {
        let made = attempts_of(draws);
        law_draws_make_attempts(draws, texts(pool@), max_level);
        law_kept_are_generated(made, texts(pool@), max_level);
        assert(texts(sentences@).len() == sentences.len());
        assert forall|i: int| 0 <= i < sentences.len() implies is_generated(
            (#[trigger] sentences[i])@,
            texts(pool@),
            max_level,
        ) by {
            assert(kept(made)[i] == sentences[i]@);
        }
    }
    Generated { sentences, attempts }
}

/// Generate sentences targeting specific TOP difficulty levels.
///
/// Words are taken from exactly the target level range, filtered by both TOP and HSK. The TOP
/// dictionary only has levels 1-4, so beyond them nothing is generated. The order in which the TOP
/// vocabulary is walked is left open, and chance decides what is drawn in an attempt.
pub fn generate_level_targeted_sentences(
    count: usize,
    top_vocab: &FxHashMap<String, u32>,
    hsk_vocab: &FxHashMap<String, u32>,
    min_level: u32,
    max_level: u32,
) -> (r: Generated)
    requires
        max_level <= MAX_TOP_LEVEL ==> count * ATTEMPTS_PER_SENTENCE <= usize::MAX,
    ensures
        exists|listed: Seq<Seq<char>>|
            {
                let pool = #[trigger] word_pool(
                    listed,
                    entries(*top_vocab),
                    entries(*hsk_vocab),
                    min_level,
                    max_level,
                    max_level,
                );
                &&& lists_words(listed, entries(*top_vocab))
                &&& pool.len() == 0 ==> r.sentences.len() == 0 && r.attempts == 0
                &&& exists|draws: Seq<Draw>|
                    {
                        &&& draws.len() == r.attempts
                        &&& #[trigger] are_draws(draws, pool, max_level)
                        &&& texts(r.sentences@) == kept(attempts_of(draws))
                        &&& pool.len() > 0 && max_level <= MAX_TOP_LEVEL ==> is_complete(
                            attempts_of(draws),
                            count as int,
                            count * ATTEMPTS_PER_SENTENCE,
                        )
                    }
                &&& forall|i: int|
                    0 <= i < r.sentences.len() ==> is_generated(
                        (#[trigger] r.sentences[i])@,
                        pool,
                        max_level,
                    )
            },
        max_level > MAX_TOP_LEVEL ==> r.sentences.len() == 0 && r.attempts == 0,
        r.sentences.len() <= count,
        r.sentences.len() <= r.attempts <= count * ATTEMPTS_PER_SENTENCE,
{
    let listed = vocab_words(top_vocab);
    if max_level > MAX_TOP_LEVEL {
        let r = Generated { sentences: Vec::new(), attempts: 0 };
        proof {
            let pool = word_pool(
                texts(listed@),
                entries(*top_vocab),
                entries(*hsk_vocab),
                min_level,
                max_level,
                max_level,
            );
            let draws: Seq<Draw> = Seq::empty();
            assert(are_draws(draws, pool, max_level));
            assert(texts(r.sentences@) =~= kept(attempts_of(draws)));
        }
        return r;
    }
    let pool = pool_from_list(&listed, top_vocab, hsk_vocab, min_level, max_level);
    generate_from_pool(count, &pool, max_level)
}

proof fn lemma_pool_is_pure(
    listed: Seq<Seq<char>>,
    top: Map<Seq<char>, u32>,
    hsk: Map<Seq<char>, u32>,
    min_level: u32,
    level: u32,
    max_level: u32,
    word: Seq<char>,
)
    requires
        lists_words(listed, top),
        level <= max_level,
    ensures
        word_pool(listed, top, hsk, min_level, level, max_level).contains(word) <==> (is_pure(
            top,
            hsk,
            min_level,
            max_level,
            word,
        ) && top[word] <= level),
    decreases level,
{
    let pool = word_pool(listed, top, hsk, min_level, level, max_level);
    if min_level <= level {
        let last = words_at(listed, top, hsk, level, max_level);
        let keep = |w: Seq<char>| is_pure_at(top, hsk, level, max_level, w);
        let front = if level == 0 {
            Seq::empty()
        } else {
            word_pool(listed, top, hsk, min_level, (level - 1) as u32, max_level)
        };
        assert(pool =~= front + last);
        if level > 0 {
            lemma_pool_is_pure(listed, top, hsk, min_level, (level - 1) as u32, max_level, word);
        }
        lemma_filter_part(listed, keep);
        broadcast use vstd::seq_lib::group_filter_ensures;

        if pool.contains(word) {
            let i = pool.index_of(word);
            if i < front.len() {
                assert(front[i] == word);
                assert(front.contains(word));
            } else {
                assert(last[i - front.len()] == word);
                assert(keep(last[i - front.len()]));
            }
        }
        if is_pure(top, hsk, min_level, max_level, word) && top[word] <= level {
            if top[word] == level {
                assert(listed.contains(word));
                assert(keep(listed[listed.index_of(word)]));
                assert(last.contains(word));
                assert(pool[front.len() + last.index_of(word)] == word);
            } else {
                assert(front.contains(word));
                assert(pool[front.index_of(word)] == word);
            }
        }
    }
}

/// The pool is strictly pure and complete: it holds exactly the words whose TOP level is in the
/// target range and whose HSK level is no higher than the range.
pub proof fn law_pool_is_pure(
    listed: Seq<Seq<char>>,
    top: Map<Seq<char>, u32>,
    hsk: Map<Seq<char>, u32>,
    min_level: u32,
    max_level: u32,
    word: Seq<char>,
)
    requires
        lists_words(listed, top),
    ensures
        word_pool(listed, top, hsk, min_level, max_level, max_level).contains(word) <==> {
            &&& top.contains_key(word)
            &&& min_level <= top[word]
            &&& top[word] <= max_level
            &&& hsk.contains_key(word)
            &&& hsk[word] <= max_level
        },
{
    lemma_pool_is_pure(listed, top, hsk, min_level, max_level, max_level, word);
}

/// The pool goes level by level: no word stands before one of a lower TOP level, and no word stands
/// in it twice.
pub proof fn law_pool_order(
    listed: Seq<Seq<char>>,
    top: Map<Seq<char>, u32>,
    hsk: Map<Seq<char>, u32>,
    min_level: u32,
    max_level: u32,
)
    requires
        listed.no_duplicates(),
    ensures
        word_pool(listed, top, hsk, min_level, max_level, max_level).no_duplicates(),
        forall|i: int, j: int|
            0 <= i < j < word_pool(listed, top, hsk, min_level, max_level, max_level).len()
                ==> top[#[trigger] word_pool(listed, top, hsk, min_level, max_level, max_level)[i]]
                <= top[#[trigger] word_pool(listed, top, hsk, min_level, max_level, max_level)[j]],
{
    lemma_pool_order(listed, top, hsk, min_level, max_level, max_level);
}

proof fn lemma_pool_order(
    listed: Seq<Seq<char>>,
    top: Map<Seq<char>, u32>,
    hsk: Map<Seq<char>, u32>,
    min_level: u32,
    level: u32,
    max_level: u32,
)
    requires
        listed.no_duplicates(),
        level <= max_level,
    ensures
        ({
            let pool = word_pool(listed, top, hsk, min_level, level, max_level);
            &&& pool.no_duplicates()
            &&& forall|i: int| 0 <= i < pool.len() ==> top[#[trigger] pool[i]] <= level
            &&& forall|i: int, j: int|
                0 <= i < j < pool.len() ==> top[#[trigger] pool[i]] <= top[#[trigger] pool[j]]
        }),
    decreases level,
{
    let pool = word_pool(listed, top, hsk, min_level, level, max_level);
    if min_level <= level {
        let keep = |w: Seq<char>| is_pure_at(top, hsk, level, max_level, w);
        let last = words_at(listed, top, hsk, level, max_level);
        lemma_filter_part(listed, keep);
        broadcast use vstd::seq_lib::group_filter_ensures;

        assert forall|i: int| 0 <= i < last.len() implies top[#[trigger] last[i]] == level by {
            assert(keep(last[i]));
        }
        if level > 0 {
            let front = word_pool(listed, top, hsk, min_level, (level - 1) as u32, max_level);
            lemma_pool_order(listed, top, hsk, min_level, (level - 1) as u32, max_level);
            assert(pool =~= front + last);
            assert forall|i: int| 0 <= i < pool.len() implies top[#[trigger] pool[i]] <= level by {
                if i < front.len() {
                    assert(pool[i] == front[i]);
                } else {
                    assert(pool[i] == last[i - front.len()]);
                }
            }
            assert forall|i: int, j: int| 0 <= i < j < pool.len() implies top[#[trigger] pool[i]]
                <= top[#[trigger] pool[j]] by {
                if j < front.len() {
                    assert(pool[i] == front[i] && pool[j] == front[j]);
                } else {
                    assert(pool[j] == last[j - front.len()]);
                }
            }
            assert forall|i: int, j: int|
                0 <= i < pool.len() && 0 <= j < pool.len() && i != j implies pool[i] != pool[j] by {
                if i < front.len() {
                    assert(pool[i] == front[i]);
                    assert(top[front[i]] <= level - 1);
                } else {
                    assert(pool[i] == last[i - front.len()]);
                }
                if j < front.len() {
                    assert(pool[j] == front[j]);
                    assert(top[front[j]] <= level - 1);
                } else {
                    assert(pool[j] == last[j - front.len()]);
                }
            }
        }
    }
}

/// The sentence of some words: the words one behind the other and a mark, a question mark for a
/// question, an exclamation mark for an exclamation that is no question, and else a full stop. Fewer
/// than three words make no sentence, nor do fewer than 5 or more than 80 characters.
pub proof fn law_sentence(words: Seq<Seq<char>>, question: bool, exclamation: bool)
    ensures
        words.len() < 3 ==> sentence_of(words, question, exclamation) is None,
        words.len() >= 3 && 4 <= joined(words).len() <= 79 ==> sentence_of(
            words,
            question,
            exclamation,
        ) == Some(
            joined(words).push(
                if question {
                    '？'
                } else if exclamation {
                    '！'
                } else {
                    '。'
                },
            ),
        ),
        joined(words).len() < 4 || joined(words).len() > 79 ==> sentence_of(
            words,
            question,
            exclamation,
        ) is None,
{
    reveal_strlit("？");
    reveal_strlit("！");
    reveal_strlit("。");
    let mark = if question {
        '？'
    } else if exclamation {
        '！'
    } else {
        '。'
    };
    assert(joined(words) + ending(question, exclamation) =~= joined(words).push(mark));
}

/// Texts are joined without anything between them.
pub proof fn law_joined(front: Seq<Seq<char>>, back: Seq<Seq<char>>, word: Seq<char>)
    ensures
        joined(Seq::empty()) == Seq::<char>::empty(),
        joined(seq![word]) == word,
        joined(front + back) == joined(front) + joined(back),
    decreases back.len(),
{
    assert(seq![word].drop_last() =~= Seq::empty());
    assert(joined(seq![word]) =~= word) by {
        reveal_with_fuel(joined, 2);
    }
    if back.len() == 0 {
        assert(front + back =~= front);
        assert(joined(front) + joined(back) =~= joined(front));
    } else {
        law_joined(front, back.drop_last(), word);
        assert((front + back).drop_last() =~= front + back.drop_last());
        assert((front + back).last() == back.last());
        assert(joined(front + back) =~= joined(front) + joined(back));
    }
}

/// The particles, each one once.
pub proof fn law_particles()
    ensures
        particles().len() == 23,
        particles()[0] == seq!['的'],
        particles()[1] == seq!['了'],
        particles()[2] == seq!['在'],
        particles()[3] == seq!['是'],
        particles()[4] == seq!['很'],
        particles()[5] == seq!['也'],
        particles()[6] == seq!['都'],
        particles()[7] == seq!['和'],
        particles()[8] == seq!['有'],
        particles()[9] == seq!['不'],
        particles()[10] == seq!['吗'],
        particles()[11] == seq!['呢'],
        particles()[12] == seq!['吧'],
        particles()[13] == seq!['着'],
        particles()[14] == seq!['我'],
        particles()[15] == seq!['你'],
        particles()[16] == seq!['他'],
        particles()[17] == seq!['她'],
        particles()[18] == seq!['们'],
        particles()[19] == seq!['这'],
        particles()[20] == seq!['那'],
        particles()[21] == seq!['什', '么'],
        particles()[22] == seq!['怎', '么'],
{
    reveal_strlit("的");
    reveal_strlit("了");
    reveal_strlit("在");
    reveal_strlit("是");
    reveal_strlit("很");
    reveal_strlit("也");
    reveal_strlit("都");
    reveal_strlit("和");
    reveal_strlit("有");
    reveal_strlit("不");
    reveal_strlit("吗");
    reveal_strlit("呢");
    reveal_strlit("吧");
    reveal_strlit("着");
    reveal_strlit("我");
    reveal_strlit("你");
    reveal_strlit("他");
    reveal_strlit("她");
    reveal_strlit("们");
    reveal_strlit("这");
    reveal_strlit("那");
    reveal_strlit("什么");
    reveal_strlit("怎么");
}

/// The number of words of a sentence is 3 to 6 up to level 2 and 5 to 9 above. A word is a particle
/// in 3 of 10 cases; a sentence is a question in 15 of 100, and else an exclamation in 1 of 10.
pub proof fn law_odds_and_lengths(max_level: u32)
    ensures
        max_level <= 2 ==> length_range(max_level) == (3usize, 7usize),
        max_level > 2 ==> length_range(max_level) == (5usize, 10usize),
        odds(Coin::Particle) == (3u32, 10u32),
        odds(Coin::Question) == (15u32, 100u32),
        odds(Coin::Exclamation) == (1u32, 10u32),
{
}

/// What chance is asked for in an attempt, and what becomes of it: as many words as the die says; a
/// particle where the coin of the word came up and a word of the pool where it did not, each of them
/// the word that was picked; a question where the first coin came up, and where it did not, an
/// exclamation as the second coin says.
pub proof fn law_draw(draw: Draw, pool: Seq<Seq<char>>, max_level: u32, i: int)
    requires
        is_draw(draw, pool, max_level),
    ensures
        max_level <= 2 ==> draw.length.range() == (3usize, 7usize),
        max_level > 2 ==> draw.length.range() == (5usize, 10usize),
        attempt_of(draw).words.len() == draw.length.number(),
        attempt_of(draw).coins.len() == draw.length.number(),
        0 <= i < draw.length.number() ==> {
            &&& draw.tosses[i].odds() == (3u32, 10u32)
            &&& attempt_of(draw).coins[i] == draw.tosses[i].came_up()
            &&& attempt_of(draw).words[i] == draw.picks[i].text()
            &&& draw.tosses[i].came_up() ==> particles().contains(draw.picks[i].text())
                && draw.picks[i].source() == particles()
            &&& !draw.tosses[i].came_up() ==> pool.contains(draw.picks[i].text())
                && draw.picks[i].source() == pool
        },
        draw.question.odds() == (15u32, 100u32),
        attempt_of(draw).question == draw.question.came_up(),
        draw.question.came_up() ==> draw.exclamation is None && !attempt_of(draw).exclamation,
        !draw.question.came_up() ==> draw.exclamation is Some && draw.exclamation->0.odds() == (
            1u32,
            10u32,
        ) && attempt_of(draw).exclamation == draw.exclamation->0.came_up(),
{
    if 0 <= i < draw.length.number() {
        assert(draw.tosses[i].odds() == odds(Coin::Particle));
        assert(draw.picks[i].source() == particles() || draw.picks[i].source() == pool);
        let attempt = attempt_of(draw);
        assert(attempt.words[i] == draw.picks[i].text());
        assert(attempt.coins[i] == draw.tosses[i].came_up());
    }
}

/// One attempt more adds its sentence behind all others if it makes one, and nothing if it does not.
pub proof fn law_kept_of_one_more(attempts: Seq<AttemptView>, attempt: AttemptView)
    ensures
        kept(Seq::empty()) == Seq::<Seq<char>>::empty(),
        sentence_of(attempt.words, attempt.question, attempt.exclamation) matches Some(sentence)
            ==> kept(attempts.push(attempt)) == kept(attempts).push(sentence),
        sentence_of(attempt.words, attempt.question, attempt.exclamation) is None ==> kept(
            attempts.push(attempt),
        ) == kept(attempts),
{
    assert(attempts.push(attempt).drop_last() =~= attempts);
}

/// When attempts end: there are never more sentences than wanted nor more attempts than allowed, the
/// last attempt was needed, and fewer sentences than wanted come with all attempts used up.
pub proof fn law_attempts_end(attempts: Seq<AttemptView>, count: int, limit: int)
    ensures
        is_complete(attempts, count, limit) <==> {
            &&& kept(attempts).len() <= count
            &&& attempts.len() <= limit
            &&& attempts.len() > 0 ==> kept(attempts.take(attempts.len() - 1)).len() < count
            &&& kept(attempts).len() == count || attempts.len() == limit
        },
{
    if attempts.len() > 0 {
        assert(attempts.take(attempts.len() - 1) =~= attempts.drop_last());
    }
}

/// A generated sentence has a reasonable length: from 5 to 80 characters.
pub proof fn law_generated_length(sentence: Seq<char>, pool: Seq<Seq<char>>, max_level: u32)
    requires
        is_generated(sentence, pool, max_level),
    ensures
        5 <= sentence.len() <= 80,
{
}

/// What chance decides makes attempts with words of the pool.
pub proof fn law_draws_make_attempts(draws: Seq<Draw>, pool: Seq<Seq<char>>, max_level: u32)
    requires
        are_draws(draws, pool, max_level),
    ensures
        are_attempts(attempts_of(draws), pool, max_level),
        attempts_of(draws).len() == draws.len(),
{
    assert forall|i: int| 0 <= i < attempts_of(draws).len() implies is_attempt(
        #[trigger] attempts_of(draws)[i],
        pool,
        max_level,
    ) by {
        assert(is_draw(draws[i], pool, max_level));
    }
}

proof fn lemma_attempts_front(attempts: Seq<AttemptView>, pool: Seq<Seq<char>>, max_level: u32)
    requires
        are_attempts(attempts, pool, max_level),
        attempts.len() > 0,
    ensures
        are_attempts(attempts.drop_last(), pool, max_level),
        is_attempt(attempts.last(), pool, max_level),
{
    assert(is_attempt(attempts[attempts.len() - 1], pool, max_level));
    assert forall|i: int| 0 <= i < attempts.drop_last().len() implies is_attempt(
        #[trigger] attempts.drop_last()[i],
        pool,
        max_level,
    ) by {
        assert(is_attempt(attempts[i], pool, max_level));
    }
}

/// Every sentence that is kept comes from an attempt, and there are no more of them than attempts.
pub proof fn law_kept_are_generated(
    attempts: Seq<AttemptView>,
    pool: Seq<Seq<char>>,
    max_level: u32,
)
    requires
        are_attempts(attempts, pool, max_level),
    ensures
        kept(attempts).len() <= attempts.len(),
        forall|i: int|
            0 <= i < kept(attempts).len() ==> is_generated(
                #[trigger] kept(attempts)[i],
                pool,
                max_level,
            ),
    decreases attempts.len(),
{
    if attempts.len() > 0 {
        let front = attempts.drop_last();
        lemma_attempts_front(attempts, pool, max_level);
        law_kept_are_generated(front, pool, max_level);
        assert forall|i: int| 0 <= i < kept(attempts).len() implies is_generated(
            #[trigger] kept(attempts)[i],
            pool,
            max_level,
        ) by {
            if i < kept(front).len() {
                assert(kept(attempts)[i] == kept(front)[i]);
            }
        }
    }
}

proof fn lemma_particle_lengths()
    ensures
        forall|i: int| 0 <= i < particles().len() ==> 1 <= (#[trigger] particles()[i]).len() <= 2,
{
    reveal_strlit("的");
    reveal_strlit("了");
    reveal_strlit("在");
    reveal_strlit("是");
    reveal_strlit("很");
    reveal_strlit("也");
    reveal_strlit("都");
    reveal_strlit("和");
    reveal_strlit("有");
    reveal_strlit("不");
    reveal_strlit("吗");
    reveal_strlit("呢");
    reveal_strlit("吧");
    reveal_strlit("着");
    reveal_strlit("我");
    reveal_strlit("你");
    reveal_strlit("他");
    reveal_strlit("她");
    reveal_strlit("们");
    reveal_strlit("这");
    reveal_strlit("那");
    reveal_strlit("什么");
    reveal_strlit("怎么");
}

proof fn lemma_joined_length(words: Seq<Seq<char>>)
    requires
        forall|i: int| 0 <= i < words.len() ==> 1 <= (#[trigger] words[i]).len() <= 8,
    ensures
        words.len() <= joined(words).len() <= 8 * words.len(),
    decreases words.len(),
{
    if words.len() > 0 {
        let front = words.drop_last();
        assert forall|i: int| 0 <= i < front.len() implies 1 <= (#[trigger] front[i]).len() <= 8 by {
            assert(front[i] == words[i]);
        }
        lemma_joined_length(front);
        assert(1 <= words[words.len() - 1].len() <= 8);
    }
}

/// At levels 3 and 4 no attempt fails with words of 1 to 8 characters: every one gives a sentence.
pub proof fn law_no_attempt_fails(
    attempts: Seq<AttemptView>,
    pool: Seq<Seq<char>>,
    max_level: u32,
)
    requires
        are_attempts(attempts, pool, max_level),
        3 <= max_level <= 4,
        forall|i: int| 0 <= i < pool.len() ==> 1 <= (#[trigger] pool[i]).len() <= 8,
    ensures
        kept(attempts).len() == attempts.len(),
    decreases attempts.len(),
{
    if attempts.len() > 0 {
        let words = attempts.last().words;
        lemma_attempts_front(attempts, pool, max_level);
        law_no_attempt_fails(attempts.drop_last(), pool, max_level);
        assert forall|i: int| 0 <= i < words.len() implies 1 <= (#[trigger] words[i]).len()
            <= 8 by {
            lemma_particle_lengths();
            if attempts.last().coins[i] {
                assert(particles()[particles().index_of(words[i])] == words[i]);
            } else {
                assert(pool[pool.index_of(words[i])] == words[i]);
            }
        }
        lemma_joined_length(words);
        reveal_strlit("？");
        reveal_strlit("！");
        reveal_strlit("。");
    }
}

/// At levels 3 and 4, with words of 1 to 8 characters, exactly as many sentences are generated as
/// are wanted, in as many attempts.
pub proof fn law_count_is_reached(
    attempts: Seq<AttemptView>,
    pool: Seq<Seq<char>>,
    max_level: u32,
    count: int,
)
    requires
        are_attempts(attempts, pool, max_level),
        is_complete(attempts, count, count * ATTEMPTS_PER_SENTENCE),
        0 <= count,
        3 <= max_level <= 4,
        forall|i: int| 0 <= i < pool.len() ==> 1 <= (#[trigger] pool[i]).len() <= 8,
    ensures
        attempts.len() == count,
        kept(attempts).len() == count,
{
    law_no_attempt_fails(attempts, pool, max_level);
}

/// What an attempt says is what it holds, and of some attempts each one for itself, in order.
pub proof fn law_attempt_views(attempts: Seq<Attempt>, i: int)
    requires
        0 <= i < attempts.len(),
    ensures
        attempt_views(attempts).len() == attempts.len(),
        attempt_views(attempts)[i].words.len() == attempts[i].words@.len(),
        forall|k: int|
            0 <= k < attempts[i].words@.len() ==> #[trigger] attempt_views(attempts)[i].words[k]
                == attempts[i].words@[k]@,
        attempt_views(attempts)[i].coins == attempts[i].coins@,
        attempt_views(attempts)[i].question == attempts[i].question,
        attempt_views(attempts)[i].exclamation == attempts[i].exclamation,
{
}

} // verus!
