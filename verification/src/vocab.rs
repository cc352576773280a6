//! Vocabularies: hash maps from words to difficulty levels.
use crate::json::Json;
use rustc_hash::FxHashMap;
use vstd::prelude::*;

verus! {

use crate::json::{json_document, member_of, members, number_of, trees, JsonTree};

/// The hasher state of `FxHashMap`; nothing is said of it.
#[verifier::external_type_specification]
#[verifier::external_body]
pub struct ExFxBuildHasher(rustc_hash::FxBuildHasher);

/// The contents of a vocabulary: the level of each of its words.
pub uninterp spec fn entries(vocab: FxHashMap<String, u32>) -> Map<Seq<char>, u32>;

/// The level that `vocab` gives to `word`, if it holds the word.
pub open spec fn level_in(vocab: Map<Seq<char>, u32>, word: Seq<char>) -> Option<u32> {
    if vocab.contains_key(word) {
        Some(vocab[word])
    } else {
        None
    }
}

/// The vocabulary without words.
pub open spec fn no_words() -> Map<Seq<char>, u32> {
    Map::empty()
}

/// The texts of a list of strings.
pub open spec fn texts(words: Seq<String>) -> Seq<Seq<char>> {
    words.map_values(|w: String| w@)
}

/// `words` lists each word of `vocab` exactly once, in some order.
pub open spec fn lists_words(words: Seq<Seq<char>>, vocab: Map<Seq<char>, u32>) -> bool {
    &&& words.no_duplicates()
    &&& forall|w: Seq<char>| words.contains(w) <==> #[trigger] vocab.contains_key(w)
}

/// What is kept of a list comes from the list, and repeats nothing that the list does not repeat.
pub(crate) proof fn lemma_filter_part<A>(list: Seq<A>, keep: spec_fn(A) -> bool)
    ensures
        forall|x: A| #[trigger] list.filter(keep).contains(x) ==> list.contains(x),
        list.no_duplicates() ==> list.filter(keep).no_duplicates(),
    decreases list.len(),
{
    reveal(Seq::filter);
    if list.len() > 0 {
        let front = list.drop_last();
        let kept = front.filter(keep);
        lemma_filter_part(front, keep);
        assert forall|x: A| #[trigger] list.filter(keep).contains(x) implies list.contains(x) by {
            let i = list.filter(keep).index_of(x);
            if i < kept.len() {
                assert(kept[i] == x);
                assert(kept.contains(x));
                assert(list[front.index_of(x)] == x);
            } else {
                assert(list.last() == x);
            }
        }
        if list.no_duplicates() {
            assert forall|i: int| 0 <= i < kept.len() implies kept[i] != list.last() by {
                assert(kept.contains(kept[i]));
                assert(front[front.index_of(kept[i])] == kept[i]);
            }
        }
    }
}

/// `FxHashMap::default`: a vocabulary without words.
#[verifier::external_body]
pub(crate) fn vocab_new() -> (vocab: FxHashMap<String, u32>)
    ensures
        entries(vocab) == no_words(),
{
    FxHashMap::default()
}

/// `HashMap::insert` on an `FxHashMap`: afterwards the word has the given level, and every other
/// word the level that it had.
#[verifier::external_body]
pub(crate) fn vocab_insert(vocab: &mut FxHashMap<String, u32>, word: String, level: u32)
    ensures
        entries(*final(vocab)) == entries(*old(vocab)).insert(word@, level),
{
    vocab.insert(word, level);
}

/// `HashMap::remove` on an `FxHashMap`: afterwards the word is missing, and every other word has
/// the level that it had.
#[verifier::external_body]
fn vocab_remove(vocab: &mut FxHashMap<String, u32>, word: &str)
    ensures
        entries(*final(vocab)) == entries(*old(vocab)).remove(word@),
{
    vocab.remove(word);
}

/// `HashMap::get` on an `FxHashMap`: the level of a word, `None` where the word is missing.
#[verifier::external_body]
pub(crate) fn vocab_get(vocab: &FxHashMap<String, u32>, word: &str) -> (level: Option<u32>)
    ensures
        level == level_in(entries(*vocab), word@),
{
    vocab.get(word).copied()
}

/// `HashMap::contains_key` on an `FxHashMap`: whether the vocabulary holds a word.
#[verifier::external_body]
pub(crate) fn vocab_contains(vocab: &FxHashMap<String, u32>, word: &str) -> (found: bool)
    ensures
        found == entries(*vocab).contains_key(word@),
{
    vocab.contains_key(word)
}

/// `HashMap::len` on an `FxHashMap`: the number of words.
#[verifier::external_body]
pub(crate) fn vocab_len(vocab: &FxHashMap<String, u32>) -> (len: usize)
    ensures
        len == entries(*vocab).len(),
{
    vocab.len()
}

/// `HashMap::keys` on an `FxHashMap`: each word once. The order in which the map is walked is
/// left open.
#[verifier::external_body]
pub(crate) fn vocab_words(vocab: &FxHashMap<String, u32>) -> (words: Vec<String>)
    ensures
        lists_words(texts(words@), entries(*vocab)),
{
    vocab.keys().cloned().collect()
}

/// The number that an object has under a name.
pub open spec fn number_at(tree: JsonTree, name: Seq<char>) -> Option<u64> {
    match member_of(tree, name) {
        Some(member) => number_of(member),
        None => None,
    }
}

/// The string that an object has under a name.
pub open spec fn text_at(tree: JsonTree, name: Seq<char>) -> Option<Seq<char>> {
    match member_of(tree, name) {
        Some(JsonTree::Text(text)) => Some(text),
        _ => None,
    }
}

/// The array that an object has under a name.
pub open spec fn array_at(tree: JsonTree, name: Seq<char>) -> Option<Seq<JsonTree>> {
    match member_of(tree, name) {
        Some(JsonTree::Array(items)) => Some(items),
        _ => None,
    }
}

/// The first level found among the meanings of a word.
pub open spec fn first_level(meanings: Seq<JsonTree>, field: Seq<char>) -> Option<u64>
    decreases meanings.len(),
{
    if meanings.len() == 0 {
        None
    } else if number_at(meanings[0], field) is Some {
        number_at(meanings[0], field)
    } else {
        first_level(meanings.drop_first(), field)
    }
}

/// The word of a dictionary entry with its level, if the entry has both.
pub open spec fn entry_level(entry: JsonTree, field: Seq<char>) -> Option<(Seq<char>, u32)> {
    match (text_at(entry, "sm"@), array_at(entry, "meanings"@)) {
        (Some(word), Some(meanings)) => match first_level(meanings, field) {
            Some(level) => Some((word, level as u32)),
            None => None,
        },
        _ => None,
    }
}

/// The word of a list item with its level, if the item has both.
pub open spec fn item_level(item: JsonTree) -> Option<(Seq<char>, u32)> {
    match (text_at(item, "word"@), number_at(item, "level"@)) {
        (Some(word), Some(level)) => Some((word, level as u32)),
        _ => None,
    }
}

/// The vocabulary of some optional words with levels; of several levels of a word the last counts.
pub open spec fn collect_words(found: Seq<Option<(Seq<char>, u32)>>) -> Map<Seq<char>, u32>
    decreases found.len(),
{
    if found.len() == 0 {
        no_words()
    } else {
        let front = collect_words(found.drop_last());
        match found.last() {
            Some((word, level)) => front.insert(word, level),
            None => front,
        }
    }
}

/// The vocabulary of an object from words to levels.
pub open spec fn object_words(map: Map<Seq<char>, JsonTree>) -> Map<Seq<char>, u32> {
    Map::new(
        |word: Seq<char>| map.contains_key(word) && number_of(map[word]) is Some,
        |word: Seq<char>| number_of(map[word])->0 as u32,
    )
}

/// The vocabulary that a document holds: in its list of entries, where it has one; else in the
/// items of a list, or the members of an object. `field` is the name of a level in an entry.
/// `None` for a document of any other form.
pub open spec fn document_words(tree: JsonTree, field: Seq<char>) -> Option<Map<Seq<char>, u32>> {
    match array_at(tree, "entries"@) {
        Some(entries) => Some(
            collect_words(entries.map_values(|e: JsonTree| entry_level(e, field))),
        ),
        None => match tree {
            JsonTree::Array(items) => Some(
                collect_words(items.map_values(|i: JsonTree| item_level(i))),
            ),
            JsonTree::Object(map) => Some(object_words(map)),
            _ => None,
        },
    }
}

pub(crate) proof fn lemma_trees(items: Seq<Json>)
    ensures
        trees(items).len() == items.len(),
        forall|i: int| 0 <= i < items.len() ==> #[trigger] trees(items)[i] == items[i].tree(),
    decreases items.len(),
{
    if items.len() > 0 {
        lemma_trees(items.drop_last());
        assert forall|i: int| 0 <= i < items.len() implies #[trigger] trees(items)[i]
            == items[i].tree() by {
            if i < items.len() - 1 {
                assert(items.drop_last()[i] == items[i]);
                assert(trees(items)[i] == trees(items.drop_last())[i]);
            }
        }
    }
}

/// Find the first level among the meanings of a word.
fn find_first_level(meanings: &Vec<Json>, field: &str) -> (r: Option<u64>)
    ensures
        r == first_level(trees(meanings@), field@),
{
    let ghost all = trees(meanings@);
    proof {
        lemma_trees(meanings@);
        assert(all.skip(0) =~= all);
    }
    for i in 0..meanings.len()
        invariant
            all == trees(meanings@),
            all.len() == meanings.len(),
            forall|j: int| 0 <= j < meanings.len() ==> #[trigger] all[j] == meanings[j].tree(),
            first_level(all, field@) == first_level(all.skip(i as int), field@),
    {
        assert(all.skip(i as int)[0] == meanings[i as int].tree());
        assert(all.skip(i as int).drop_first() =~= all.skip(i + 1));
        let level: Option<u64> = match meanings[i].get(field) {
            Some(member) => member.as_u64(),
            None => None,
        };
        if level.is_some() {
            return level;
        }
    }
    None
}

/// Read the word and the level of a dictionary entry.
fn read_entry(entry: &Json, field: &str) -> (r: Option<(String, u32)>)
    ensures
        match r {
            Some(found) => entry_level(entry.tree(), field@) == Some((found.0@, found.1)),
            None => entry_level(entry.tree(), field@) is None,
        },
{
    let word: Option<&str> = match entry.get("sm") {
        Some(member) => member.as_str(),
        None => None,
    };
    let meanings: Option<&Vec<Json>> = match entry.get("meanings") {
        Some(member) => member.as_array(),
        None => None,
    };
    match (word, meanings) {
        (Some(w), Some(m)) => match find_first_level(m, field) {
            Some(level) => Some((w.to_owned(), level as u32)),
            None => None,
        },
        _ => None,
    }
}

/// Read the word and the level of a list item.
fn read_item(item: &Json) -> (r: Option<(String, u32)>)
    ensures
        match r {
            Some(found) => item_level(item.tree()) == Some((found.0@, found.1)),
            None => item_level(item.tree()) is None,
        },
{
    let word: Option<&str> = match item.get("word") {
        Some(member) => member.as_str(),
        None => None,
    };
    let level: Option<u64> = match item.get("level") {
        Some(member) => member.as_u64(),
        None => None,
    };
    match (word, level) {
        (Some(w), Some(l)) => Some((w.to_owned(), l as u32)),
        _ => None,
    }
}

/// The vocabulary of a document whose levels in an entry are named `field`.
pub fn vocab_from_json(data: &Json, field: &str) -> (r: Option<FxHashMap<String, u32>>)
    ensures
        match r {
            Some(vocab) => document_words(data.tree(), field@) == Some(entries(vocab)),
            None => document_words(data.tree(), field@) is None,
        },
{
    let mut vocab = vocab_new();
    let list: Option<&Vec<Json>> = match data.get("entries") {
        Some(member) => member.as_array(),
        None => None,
    };
    if let Some(items) = list {
        let ghost found = trees(items@).map_values(|e: JsonTree| entry_level(e, field@));
        proof {
            lemma_trees(items@);
        }
        for i in 0..items.len()
            invariant
                found == trees(items@).map_values(|e: JsonTree| entry_level(e, field@)),
                found.len() == items.len(),
                forall|j: int|
                    0 <= j < items.len() ==> #[trigger] trees(items@)[j] == items[j].tree(),
                entries(vocab) == collect_words(found.take(i as int)),
        {
            assert(found[i as int] == entry_level(items[i as int].tree(), field@));
            assert(found.take(i + 1).drop_last() =~= found.take(i as int));
            if let Some((word, level)) = read_entry(&items[i], field) {
                vocab_insert(&mut vocab, word, level);
            }
        }
        assert(found.take(items.len() as int) =~= found);
        return Some(vocab);
    }
    match data {
        Json::Array(items) => {
            let ghost found = trees(items@).map_values(|i: JsonTree| item_level(i));
            proof {
                lemma_trees(items@);
            }
            for i in 0..items.len()
                invariant
                    found == trees(items@).map_values(|i: JsonTree| item_level(i)),
                    found.len() == items.len(),
                    forall|j: int|
                        0 <= j < items.len() ==> #[trigger] trees(items@)[j] == items[j].tree(),
                    entries(vocab) == collect_words(found.take(i as int)),
            {
                assert(found[i as int] == item_level(items[i as int].tree()));
                assert(found.take(i + 1).drop_last() =~= found.take(i as int));
                if let Some((word, level)) = read_item(&items[i]) {
                    vocab_insert(&mut vocab, word, level);
                }
            }
            assert(found.take(items.len() as int) =~= found);
            Some(vocab)
        },
        Json::Object(list) => {
            assert(entries(vocab) =~= object_words(members(list@.take(0))));
            for i in 0..list.len()
                invariant
                    entries(vocab) == object_words(members(list@.take(i as int))),
            {
                assert(list@.take(i + 1).drop_last() =~= list@.take(i as int));
                match list[i].1.as_u64() {
                    Some(level) => {
                        vocab_insert(&mut vocab, list[i].0.clone(), level as u32);
                    },
                    None => {
                        vocab_remove(&mut vocab, list[i].0.as_str());
                    },
                }
                assert(entries(vocab) =~= object_words(members(list@.take(i + 1))));
            }
            assert(list@.take(list.len() as int) =~= list@);
            Some(vocab)
        },
        _ => None,
    }
}

/// Why a vocabulary could not be loaded.
#[derive(Debug)]
pub enum VocabError {
    /// The text is no JSON document.
    Json(serde_json::Error),
    /// The document holds no HSK vocabulary.
    InvalidHskFormat,
    /// The document holds no TOP vocabulary.
    InvalidTopFormat,
}

impl VocabError {
    /// What is wrong with a document of the wrong form; `None` for a text that is no document.
    pub fn message(&self) -> (r: Option<&'static str>)
        ensures
            match self {
                VocabError::Json(_) => r is None,
                VocabError::InvalidHskFormat => r is Some && r->0@
                    == "Invalid HSK vocabulary format"@,
                VocabError::InvalidTopFormat => r is Some && r->0@
                    == "Invalid TOP vocabulary format"@,
            },
    {
        match self {
            VocabError::Json(_) => None,
            VocabError::InvalidHskFormat => Some("Invalid HSK vocabulary format"),
            VocabError::InvalidTopFormat => Some("Invalid TOP vocabulary format"),
        }
    }
}

/// Loads HSK vocabulary from JSON.
/// Supports formats like: {entries: [{sm: "word", meanings: [{hsk: 1}]}]}
pub fn load_hsk_vocab(content: &str) -> (r: Result<FxHashMap<String, u32>, VocabError>)
    ensures
        match json_document(content@) {
            None => r matches Err(VocabError::Json(_)),
            Some(tree) => match document_words(tree, "hsk"@) {
                None => r matches Err(VocabError::InvalidHskFormat),
                Some(words) => r is Ok && entries(r->Ok_0) == words,
            },
        },
{
    match Json::parse(content) {
        Err(error) => Err(VocabError::Json(error)),
        Ok(data) => match vocab_from_json(&data, "hsk") {
            Some(vocab) => Ok(vocab),
            None => Err(VocabError::InvalidHskFormat),
        },
    }
}

/// Loads TOP vocabulary from JSON.
/// Supports formats like: {entries: [{sm: "word", meanings: [{top: 1}]}]}
pub fn load_top_vocab(content: &str) -> (r: Result<FxHashMap<String, u32>, VocabError>)
    ensures
        match json_document(content@) {
            None => r matches Err(VocabError::Json(_)),
            Some(tree) => match document_words(tree, "top"@) {
                None => r matches Err(VocabError::InvalidTopFormat),
                Some(words) => r is Ok && entries(r->Ok_0) == words,
            },
        },
{
    match Json::parse(content) {
        Err(error) => Err(VocabError::Json(error)),
        Ok(data) => match vocab_from_json(&data, "top") {
            Some(vocab) => Ok(vocab),
            None => Err(VocabError::InvalidTopFormat),
        },
    }
}

/// `index` is the last place at which `word` is found.
pub open spec fn is_last_place(
    found: Seq<Option<(Seq<char>, u32)>>,
    word: Seq<char>,
    index: int,
) -> bool {
    &&& 0 <= index < found.len()
    &&& found[index] matches Some((w, _)) && w == word
    &&& forall|i: int|
        index < i < found.len() ==> !(#[trigger] found[i] matches Some((w, _)) && w == word)
}

/// A vocabulary holds exactly the words that were found with a level, and the last level that was
/// found of a word is its level.
pub proof fn law_last_level_counts(
    found: Seq<Option<(Seq<char>, u32)>>,
    word: Seq<char>,
)
    ensures
        collect_words(found).contains_key(word) <==> exists|index: int|
            is_last_place(found, word, index),
        forall|index: int| #[trigger]
            is_last_place(found, word, index) ==> found[index] == Some(
                (word, collect_words(found)[word]),
            ),
    decreases found.len(),
{
    if found.len() > 0 {
        let front = found.drop_last();
        let last = found.len() - 1;
        law_last_level_counts(front, word);
        if found[last] matches Some((w, _)) && w == word {
            assert(is_last_place(found, word, last));
            assert forall|index: int| #[trigger] is_last_place(found, word, index) implies index
                == last by {}
        } else {
            assert forall|index: int|
                #![trigger is_last_place(found, word, index)]
                #![trigger is_last_place(front, word, index)]
                is_last_place(found, word, index) <==> is_last_place(front, word, index) by {
                if is_last_place(found, word, index) {
                    assert(front[index] == found[index]);
                    assert forall|i: int| index < i < front.len() implies !(
                    #[trigger] front[i] matches Some((w, _)) && w == word) by {
                        assert(front[i] == found[i]);
                    }
                }
                if is_last_place(front, word, index) {
                    assert forall|i: int| index < i < found.len() implies !(
                    #[trigger] found[i] matches Some((w, _)) && w == word) by {
                        if i < last {
                            assert(front[i] == found[i]);
                        }
                    }
                }
            }
        }
    }
}

/// What an object has under a name as a number, a string or an array: what stands there if it is of
/// that kind, and nothing otherwise.
pub proof fn law_typed_lookups(
    tree: JsonTree,
    name: Seq<char>,
    n: u64,
    text: Seq<char>,
    items: Seq<JsonTree>,
)
    ensures
        number_at(tree, name) == Some(n) <==> tree is Object && tree->Object_0.contains_key(name)
            && tree->Object_0[name] == JsonTree::Number(Some(n)),
        text_at(tree, name) == Some(text) <==> tree is Object && tree->Object_0.contains_key(name)
            && tree->Object_0[name] == JsonTree::Text(text),
        array_at(tree, name) == Some(items) <==> tree is Object && tree->Object_0.contains_key(name)
            && tree->Object_0[name] == JsonTree::Array(items),
{
}

/// `index` is the first place at which a meaning has a level.
pub open spec fn is_first_place(meanings: Seq<JsonTree>, field: Seq<char>, index: int) -> bool {
    &&& 0 <= index < meanings.len()
    &&& number_at(meanings[index], field) is Some
    &&& forall|j: int| 0 <= j < index ==> number_at(#[trigger] meanings[j], field) is None
}

/// The first level counts: the level of a word is that of the first meaning that has one, and there
/// is none exactly where no meaning has one.
pub proof fn law_first_level_counts(meanings: Seq<JsonTree>, field: Seq<char>, index: int)
    ensures
        first_level(meanings, field) is None <==> forall|i: int|
            0 <= i < meanings.len() ==> number_at(#[trigger] meanings[i], field) is None,
        0 <= index < meanings.len() && number_at(meanings[index], field) is Some && (forall|j: int|
            0 <= j < index ==> number_at(#[trigger] meanings[j], field) is None) ==> first_level(
            meanings,
            field,
        ) == number_at(meanings[index], field),
{
    lemma_no_level(meanings, field);
    if is_first_place(meanings, field, index) {
        lemma_first_level(meanings, field, index);
    }
}

proof fn lemma_no_level(meanings: Seq<JsonTree>, field: Seq<char>)
    ensures
        first_level(meanings, field) is None <==> forall|i: int|
            0 <= i < meanings.len() ==> number_at(#[trigger] meanings[i], field) is None,
    decreases meanings.len(),
{
    if meanings.len() > 0 {
        let rest = meanings.drop_first();
        lemma_no_level(rest, field);
        if first_level(meanings, field) is None {
            assert forall|i: int| 0 <= i < meanings.len() implies number_at(
                #[trigger] meanings[i],
                field,
            ) is None by {
                if i > 0 {
                    assert(rest[i - 1] == meanings[i]);
                    assert(number_at(rest[i - 1], field) is None);
                }
            }
        } else if number_at(meanings[0], field) is None {
            let k = choose|k: int|
                0 <= k < rest.len() && number_at(#[trigger] rest[k], field) is Some;
            assert(meanings[k + 1] == rest[k]);
        }
    }
}

proof fn lemma_first_level(meanings: Seq<JsonTree>, field: Seq<char>, index: int)
    requires
        is_first_place(meanings, field, index),
    ensures
        first_level(meanings, field) == number_at(meanings[index], field),
    decreases meanings.len(),
{
    if index > 0 {
        let rest = meanings.drop_first();
        assert(number_at(meanings[0], field) is None);
        assert(rest[index - 1] == meanings[index]);
        assert forall|j: int| 0 <= j < index - 1 implies number_at(
            #[trigger] rest[j],
            field,
        ) is None by {
            assert(rest[j] == meanings[j + 1]);
        }
        lemma_first_level(rest, field, index - 1);
    }
}

proof fn lemma_low_bits(n: u64)
    ensures
        n as u32 == n % 0x1_0000_0000,
{
    assert(n as u32 == n % 0x1_0000_0000) by (bit_vector);
}

/// What a dictionary entry gives: its string `sm` as the word, with the level of the first of its
/// `meanings` that has one; nothing without a word, without meanings, or without a level. Of a
/// level the low 32 bits count.
pub proof fn law_entry_level(entry: JsonTree, field: Seq<char>)
    ensures
        text_at(entry, "sm"@) is None || array_at(entry, "meanings"@) is None ==> entry_level(
            entry,
            field,
        ) is None,
        text_at(entry, "sm"@) is Some && array_at(entry, "meanings"@) is Some ==> {
            let meanings = array_at(entry, "meanings"@)->0;
            &&& (forall|i: int|
                0 <= i < meanings.len() ==> number_at(#[trigger] meanings[i], field) is None)
                ==> entry_level(entry, field) is None
            &&& forall|i: int| #[trigger]
                is_first_place(meanings, field, i) ==> entry_level(entry, field) == Some(
                    (
                        text_at(entry, "sm"@)->0,
                        (number_at(meanings[i], field)->0 % 0x1_0000_0000) as u32,
                    ),
                )
        },
{
    if text_at(entry, "sm"@) is Some && array_at(entry, "meanings"@) is Some {
        let meanings = array_at(entry, "meanings"@)->0;
        lemma_no_level(meanings, field);
        if first_level(meanings, field) is Some {
            lemma_low_bits(first_level(meanings, field)->0);
        }
        assert forall|i: int| #[trigger] is_first_place(meanings, field, i) implies first_level(
            meanings,
            field,
        ) == number_at(meanings[i], field) by {
            lemma_first_level(meanings, field, i);
        }
    }
}

/// What a list item gives: its string `word` with its number `level`, of which the low 32 bits
/// count; nothing without one of them.
pub proof fn law_item_level(item: JsonTree)
    ensures
        text_at(item, "word"@) is None || number_at(item, "level"@) is None ==> item_level(
            item,
        ) is None,
        text_at(item, "word"@) is Some && number_at(item, "level"@) is Some ==> item_level(item)
            == Some(
            (
                text_at(item, "word"@)->0,
                (number_at(item, "level"@)->0 % 0x1_0000_0000) as u32,
            ),
        ),
{
    if number_at(item, "level"@) is Some {
        lemma_low_bits(number_at(item, "level"@)->0);
    }
}

/// What a document holds. An array `entries` comes first: the vocabulary is then that of its entries
/// alone, and of several entries of a word the last counts. Else the items of a list count in the
/// same way, or each member of an object that is a number is a word with its level, of which the low
/// 32 bits count. Any other document holds no vocabulary.
pub proof fn law_document_words(tree: JsonTree, field: Seq<char>, word: Seq<char>)
    ensures
        array_at(tree, "entries"@) matches Some(list) ==> {
            let found = Seq::new(list.len(), |i: int| entry_level(list[i], field));
            &&& document_words(tree, field) is Some
            &&& document_words(tree, field)->0.contains_key(word) <==> exists|i: int|
                is_last_place(found, word, i)
            &&& forall|i: int| #[trigger]
                is_last_place(found, word, i) ==> found[i] == Some(
                    (word, document_words(tree, field)->0[word]),
                )
        },
        tree matches JsonTree::Array(list) ==> {
            let found = Seq::new(list.len(), |i: int| item_level(list[i]));
            &&& document_words(tree, field) is Some
            &&& document_words(tree, field)->0.contains_key(word) <==> exists|i: int|
                is_last_place(found, word, i)
            &&& forall|i: int| #[trigger]
                is_last_place(found, word, i) ==> found[i] == Some(
                    (word, document_words(tree, field)->0[word]),
                )
        },
        tree is Object && array_at(tree, "entries"@) is None ==> {
            &&& document_words(tree, field) is Some
            &&& document_words(tree, field)->0.contains_key(word) <==> number_at(tree, word) is Some
            &&& number_at(tree, word) is Some ==> document_words(tree, field)->0[word] == number_at(
                tree,
                word,
            )->0 % 0x1_0000_0000
        },
        !(tree is Array) && !(tree is Object) ==> document_words(tree, field) is None,
{
    match array_at(tree, "entries"@) {
        Some(list) => {
            let found = Seq::new(list.len(), |i: int| entry_level(list[i], field));
            assert(list.map_values(|e: JsonTree| entry_level(e, field)) =~= found);
            law_last_level_counts(found, word);
        },
        None => {},
    }
    match tree {
        JsonTree::Array(list) => {
            let found = Seq::new(list.len(), |i: int| item_level(list[i]));
            assert(list.map_values(|i: JsonTree| item_level(i)) =~= found);
            law_last_level_counts(found, word);
        },
        _ => {},
    }
    if number_at(tree, word) is Some {
        lemma_low_bits(number_at(tree, word)->0);
    }
}

/// The texts of a list of strings are the characters of each of them, in order.
pub proof fn law_texts(words: Seq<String>)
    ensures
        texts(words).len() == words.len(),
        forall|i: int| 0 <= i < words.len() ==> #[trigger] texts(words)[i] == words[i]@,
{
}

} // verus!
