//! The data that the library passes around.
//!
//! Types with a parameter `N` leave open how a measured number is represented: feature extraction
//! yields exact ratios, and a model may want them rounded.
use vstd::prelude::*;

verus! {

/// A single word match.
#[derive(Clone, Debug)]
pub struct WordMatch {
    /// The word.
    pub text: String,
    /// Its HSK level, where the HSK vocabulary holds it.
    pub hsk_level: Option<u32>,
    /// Its TOP level, where the TOP vocabulary holds it.
    pub top_level: Option<u32>,
    /// The byte at which the match begins.
    pub start: usize,
    /// The byte behind the match.
    pub end: usize,
}

/// An exact non-negative ratio. Every ratio that the library returns has a positive denominator.
#[derive(Clone, Copy, Debug, PartialEq, Eq, Structural)]
pub struct Ratio {
    /// What is divided.
    pub numerator: u128,
    /// What it is divided by.
    pub denominator: u128,
}

/// Feature vector for a sentence (12 dimensions).
#[derive(Clone, Debug)]
pub struct SentenceFeatures<N> {
    /// The maximum HSK level found.
    pub hsk_max: N,
    /// The mean HSK level.
    pub hsk_mean: N,
    /// The number of words with HSK level 5 or 6.
    pub hsk_count_high: u32,
    /// The number of words with HSK level 1 or 2.
    pub hsk_count_low: u32,
    /// The maximum TOP level found.
    pub top_max: N,
    /// The mean TOP level.
    pub top_mean: N,
    /// The number of words with TOP level 4.
    pub top_count_high: u32,
    /// The number of matched words.
    pub total_words: u32,
    /// The out-of-vocabulary ratio.
    pub oov_ratio: N,
    /// The number of characters.
    pub sentence_length: u32,
    /// The estimated proportion of rare characters.
    pub rare_char_ratio: N,
    /// The average length of a matched word.
    pub avg_word_length: N,
}

/// Single training example.
#[derive(Clone, Debug)]
pub struct TrainingExample<N> {
    /// The sentence itself, for debugging and validation.
    pub sentence: String,
    /// Its features.
    pub features: SentenceFeatures<N>,
    /// For each HSK level from 1 to 7, 1 if the sentence is readable there and 0 if not.
    pub hsk_labels: Vec<u32>,
    /// For each TOP level from 1 to 5, 1 if the sentence is readable there and 0 if not.
    pub top_labels: Vec<u32>,
}

/// Feature normalization statistics: the mean and the standard deviation of each feature.
#[derive(Clone, Debug)]
pub struct FeatureStats<N> {
    /// Mean of `hsk_max`.
    pub hsk_max_mean: N,
    /// Standard deviation of `hsk_max`.
    pub hsk_max_std: N,
    /// Mean of `hsk_mean`.
    pub hsk_mean_mean: N,
    /// Standard deviation of `hsk_mean`.
    pub hsk_mean_std: N,
    /// Mean of `hsk_count_high`.
    pub hsk_count_high_mean: N,
    /// Standard deviation of `hsk_count_high`.
    pub hsk_count_high_std: N,
    /// Mean of `hsk_count_low`.
    pub hsk_count_low_mean: N,
    /// Standard deviation of `hsk_count_low`.
    pub hsk_count_low_std: N,
    /// Mean of `top_max`.
    pub top_max_mean: N,
    /// Standard deviation of `top_max`.
    pub top_max_std: N,
    /// Mean of `top_mean`.
    pub top_mean_mean: N,
    /// Standard deviation of `top_mean`.
    pub top_mean_std: N,
    /// Mean of `top_count_high`.
    pub top_count_high_mean: N,
    /// Standard deviation of `top_count_high`.
    pub top_count_high_std: N,
    /// Mean of `total_words`.
    pub total_words_mean: N,
    /// Standard deviation of `total_words`.
    pub total_words_std: N,
    /// Mean of `oov_ratio`.
    pub oov_ratio_mean: N,
    /// Standard deviation of `oov_ratio`.
    pub oov_ratio_std: N,
    /// Mean of `sentence_length`.
    pub sentence_length_mean: N,
    /// Standard deviation of `sentence_length`.
    pub sentence_length_std: N,
    /// Mean of `rare_char_ratio`.
    pub rare_char_ratio_mean: N,
    /// Standard deviation of `rare_char_ratio`.
    pub rare_char_ratio_std: N,
    /// Mean of `avg_word_length`.
    pub avg_word_length_mean: N,
    /// Standard deviation of `avg_word_length`.
    pub avg_word_length_std: N,
}

/// Training dataset.
pub struct TrainingDataset<N> {
    /// The examples.
    pub examples: Vec<TrainingExample<N>>,
    /// The statistics of their features.
    pub feature_stats: FeatureStats<N>,
}

/// Runtime scoring output.
#[derive(Clone, Debug)]
pub struct DifficultyScore<N> {
    /// The sentence.
    pub sentence: String,
    /// Its HSK level.
    pub hsk_level: u32,
    /// How sure the HSK level is.
    pub hsk_confidence: N,
    /// For each HSK level, the probability that the sentence is readable there.
    pub hsk_probabilities: Vec<N>,
    /// Its TOP level.
    pub top_level: u32,
    /// How sure the TOP level is.
    pub top_confidence: N,
    /// For each TOP level, the probability that the sentence is readable there.
    pub top_probabilities: Vec<N>,
}

} // verus!
