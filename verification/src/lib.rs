//! Difficulty scoring of Chinese text against the HSK and TOP vocabularies.
//!
//! A sentence is matched against the vocabularies ([`matcher`]), the matches give features,
//! lexical coverage and labels ([`features`]), and labelled sentences make training data
//! ([`training`], [`normalize`]). Vocabularies are loaded from JSON ([`vocab`], [`json`]);
//! training sentences can be generated ([`generate`], [`chance`]) or extracted from a dictionary of phrases
//! ([`phrases`]). What is said of a score is in [`report`].

pub mod chance;
pub mod features;
pub mod generate;
pub mod json;
pub mod matcher;
pub mod normalize;
pub mod phrases;
pub mod report;
pub mod text;
pub mod training;
pub mod types;
pub mod vocab;

pub use matcher::Matcher;
pub use types::{
    DifficultyScore, FeatureStats, Ratio, SentenceFeatures, TrainingDataset, TrainingExample,
    WordMatch,
};
pub use vocab::{load_hsk_vocab, load_top_vocab};
