//! Vocabulary flash cards built from the sentences the subtitle pipeline
//! extracts. Plain data carriers; a new card starts empty on proficiency
//! level one with an undefined word frequency.

use vstd::prelude::*;

verus! {

/// Language of a contained string.
#[derive(PartialEq, Eq, Structural, Debug, Clone, Copy)]
pub enum Language {
    English,
    German,
    Spanish,
}

/// Reference (season or episode) into a TV series.
#[derive(PartialEq, Eq, Structural, Debug, Clone, Copy)]
pub enum TvSeriesReference {
    Season(u32),
    Episode(u32),
}

/// Frequency of the word in its language, based on word lists.
#[derive(PartialEq, Eq, Structural, Debug, Clone, Copy)]
pub enum WordFrequency {
    VeryHigh,
    High,
    Medium,
    Low,
    VeryLow,
    Undefined,
}

/// Proficiency bucket of a five-level Leitner system; level one means no
/// knowledge yet.
#[derive(PartialEq, Eq, Structural, Debug, Clone, Copy)]
pub enum ProficiencyLevel {
    LevelOne,
    LevelTwo,
    LevelThree,
    LevelFour,
    LevelFive,
}

/// Where a word appeared: a movie or an episode of a series, and the second
/// of the appearance.
#[derive(Debug)]
pub struct AppearanceReference {
    pub name: String,
    pub is_movie: bool,
    pub tv_series_reference: Option<TvSeriesReference>,
    pub appearance_at_second: u32,
}

/// One flash card: a word, its language, and what has been collected about it.
#[derive(Debug)]
pub struct FlashCard {
    pub word: String,
    pub language: Language,
    pub translation: Vec<String>,
    pub translation_language: Option<Language>,
    pub example_sentence: Vec<String>,
    pub used_in: Vec<AppearanceReference>,
    pub frequency: WordFrequency,
    pub proficiency: ProficiencyLevel,
}

impl FlashCard {
    /// A fresh card for `word`: no translations, no examples, no appearances,
    /// undefined frequency, proficiency level one.
    pub fn new(word: String, language: Language) -> (card: FlashCard)
        ensures
            card.word@ == word@,
            card.language == language,
            card.translation@.len() == 0,
            card.translation_language is None,
            card.example_sentence@.len() == 0,
            card.used_in@.len() == 0,
            card.frequency == WordFrequency::Undefined,
            card.proficiency == ProficiencyLevel::LevelOne,
    {
        FlashCard {
            word: word,
            language: language,
            translation: vec![],
            translation_language: None,
            example_sentence: vec![],
            used_in: vec![],
            frequency: WordFrequency::Undefined,
            proficiency: ProficiencyLevel::LevelOne,
        }
    }
}

} // verus!
