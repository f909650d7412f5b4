use tv_language_trainer::flashcard::FlashCard;
use tv_language_trainer::flashcard::Language;
use tv_language_trainer::flashcard::ProficiencyLevel;
use tv_language_trainer::flashcard::WordFrequency;

#[test]
fn test_new() {
    let mut card = FlashCard::new(String::from("tomar"), Language::Spanish);
    assert_eq!(card.word, String::from("tomar"));
    assert_eq!(card.language, Language::Spanish);
    assert_eq!(card.translation.len(), 0);
    assert!(card.translation_language.is_none());
    assert_eq!(card.example_sentence.len(), 0);
    assert_eq!(card.used_in.len(), 0);
    assert_eq!(card.frequency, WordFrequency::Undefined);
    assert_eq!(card.proficiency, ProficiencyLevel::LevelOne);
    card.translation.push(String::from("trinken"));
    card.translation_language = Some(Language::German);
}
