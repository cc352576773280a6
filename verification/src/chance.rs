//! Chance: coins, dice and lots.
//!
//! What came up cannot be foreseen, but it remembers what was asked for: a toss its odds, a roll
//! its range, a pick the words that it was made from. There is no other way to get one than to let
//! chance decide.
use rand::seq::SliceRandom;
use rand::Rng;
use vstd::prelude::*;

verus! {

use crate::vocab::texts;

/// `rand::Rng::gen_range` on the generator of the thread: some number of the range. It panics on
/// an empty range.
#[verifier::external_body]
fn random_between(low: usize, high: usize) -> (r: usize)
    requires
        low < high,
    ensures
        low <= r < high,
{
    rand::thread_rng().gen_range(low..high)
}

/// `rand::Rng::gen_ratio` on the generator of the thread: yes with the given probability, always
/// at 1 and never at 0. It panics where the ratio is not between 0 and 1.
#[verifier::external_body]
fn random_chance(numerator: u32, denominator: u32) -> (r: bool)
    requires
        numerator <= denominator,
        denominator > 0,
    ensures
        numerator == 0 ==> !r,
        numerator == denominator ==> r,
{
    rand::thread_rng().gen_ratio(numerator, denominator)
}

/// `rand::seq::SliceRandom::choose` with the generator of the thread: one of the words, `None`
/// where there are none.
#[verifier::external_body]
fn random_word(words: &Vec<String>) -> (r: Option<&String>)
    ensures
        match r {
            Some(word) => words@.contains(*word),
            None => words.len() == 0,
        },
{
    words.choose(&mut rand::thread_rng())
}

/// A coin that was tossed.
pub struct Toss {
    numerator: u32,
    denominator: u32,
    yes: bool,
}

impl Toss {
    /// The odds of a yes: how often it comes up, and in how many tosses.
    pub closed spec fn odds(self) -> (u32, u32) {
        (self.numerator, self.denominator)
    }

    /// Whether a yes came up.
    pub closed spec fn came_up(self) -> bool {
        self.yes
    }

    /// Toss a coin with the given odds.
    pub fn throw(numerator: u32, denominator: u32) -> (toss: Toss)
        requires
            numerator <= denominator,
            denominator > 0,
        ensures
            toss.odds() == (numerator, denominator),
            numerator == 0 ==> !toss.came_up(),
            numerator == denominator ==> toss.came_up(),
    {
        Toss { numerator, denominator, yes: random_chance(numerator, denominator) }
    }

    /// Whether a yes came up.
    pub fn is_yes(&self) -> (r: bool)
        ensures
            r == self.came_up(),
    {
        self.yes
    }
}

/// A die that was rolled.
pub struct Roll {
    low: usize,
    high: usize,
    value: usize,
}

impl Roll {
    /// The range of the die: the lowest number, and the one behind the highest.
    pub closed spec fn range(self) -> (usize, usize) {
        (self.low, self.high)
    }

    /// The number that came up.
    pub closed spec fn number(self) -> usize {
        self.value
    }

    /// Roll a die with the given range.
    pub fn throw(low: usize, high: usize) -> (roll: Roll)
        requires
            low < high,
        ensures
            roll.range() == (low, high),
            low <= roll.number() < high,
    {
        Roll { low, high, value: random_between(low, high) }
    }

    /// The number that came up.
    pub fn value(&self) -> (r: usize)
        ensures
            r == self.number(),
    {
        self.value
    }
}

/// A word that was picked.
pub struct Pick {
    word: String,
    source: Ghost<Seq<Seq<char>>>,
}

impl Pick {
    /// The words that it was picked from.
    pub closed spec fn source(self) -> Seq<Seq<char>> {
        self.source@
    }

    /// The word.
    pub closed spec fn text(self) -> Seq<char> {
        self.word@
    }

    /// Pick one of some words, `None` where there are none.
    pub fn from_words(words: &Vec<String>) -> (r: Option<Pick>)
        ensures
            match r {
                Some(pick) => pick.source() == texts(words@) && texts(words@).contains(pick.text()),
                None => words.len() == 0,
            },
    {
        match random_word(words) {
            Some(word) => {
                assert(texts(words@)[words@.index_of(*word)] == word@);
                Some(Pick { word: word.clone(), source: Ghost(texts(words@)) })
            },
            None => None,
        }
    }

    /// The word.
    pub fn into_word(self) -> (r: String)
        ensures
            r@ == self.text(),
    {
        self.word
    }
}

} // verus!
