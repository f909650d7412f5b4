use tv_language_trainer::subtitle::SentenceExtractionResult;
use tv_language_trainer::subtitle::SubtitleSection;

#[test]
fn complete_sentence_and_trailing_fragment() {
    let r = SubtitleSection::extract_sentences(
        "Pues que si estaba bien, que si descansaba bien. Y me han pedido ellos",
    );
    assert_eq!(r.end_of_a_sentence, None);
    assert_eq!(
        r.sentences,
        Some(vec![String::from(
            "Pues que si estaba bien, que si descansaba bien."
        )])
    );
    assert_eq!(
        r.begin_of_a_sentence,
        Some(String::from("Y me han pedido ellos"))
    );
    assert_eq!(r.partial, None);
}

#[test]
fn leading_fragment_and_complete_sentence() {
    let r = SubtitleSection::extract_sentences("de compras. Y, no sé, mira a ver si encuentras algo.");
    assert_eq!(r.end_of_a_sentence, Some(String::from("de compras.")));
    assert_eq!(
        r.sentences,
        Some(vec![String::from("Y, no sé, mira a ver si encuentras algo.")])
    );
    assert_eq!(r.begin_of_a_sentence, None);
    assert_eq!(r.partial, None);
}

#[test]
fn whole_text_is_partial() {
    let r = SubtitleSection::extract_sentences("mira a ver si encuentras algo");
    assert_eq!(r.partial, Some(String::from("mira a ver si encuentras algo")));
    assert_eq!(r.end_of_a_sentence, None);
    assert_eq!(r.sentences, None);
    assert_eq!(r.begin_of_a_sentence, None);
}

#[test]
fn inverted_marks_lead_a_sentence() {
    let r = SubtitleSection::extract_sentences("¡Hola!");
    assert_eq!(r.partial, None);
    assert_eq!(r.sentences, Some(vec![String::from("¡Hola!")]));
    assert_eq!(r.end_of_a_sentence, None);
    assert_eq!(r.begin_of_a_sentence, None);
}

#[test]
fn inverted_marks_lead_a_partial() {
    let r = SubtitleSection::extract_sentences("¿¡Qué barbaridad");
    assert_eq!(r.partial, Some(String::from("¿¡Qué barbaridad")));
    assert_eq!(r.sentences, None);
}

#[test]
fn ellipsis_periods_stay_with_the_sentence() {
    let r = SubtitleSection::extract_sentences("Vale...");
    assert_eq!(r.sentences, Some(vec![String::from("Vale...")]));
    assert_eq!(r.begin_of_a_sentence, None);
    assert_eq!(r.partial, None);
}

#[test]
fn digits_can_lead_a_sentence() {
    let r = SubtitleSection::extract_sentences("9 vidas tiene el gato.");
    assert_eq!(r.sentences, Some(vec![String::from("9 vidas tiene el gato.")]));
    assert_eq!(r.partial, None);
}

#[test]
fn two_sentences_in_order() {
    let r = SubtitleSection::extract_sentences("Hola. Adiós.");
    assert_eq!(
        r.sentences,
        Some(vec![String::from("Hola."), String::from("Adiós.")])
    );
    assert_eq!(r.end_of_a_sentence, None);
    assert_eq!(r.begin_of_a_sentence, None);
}

#[test]
fn trailing_fragment_needs_a_capital() {
    let r = SubtitleSection::extract_sentences("Hola. pero no");
    assert_eq!(r.sentences, Some(vec![String::from("Hola.")]));
    assert_eq!(r.begin_of_a_sentence, None);
}

#[test]
fn punctuation_only_text_yields_nothing() {
    let r = SubtitleSection::extract_sentences("???");
    assert_eq!(r.partial, None);
    assert_eq!(r.end_of_a_sentence, None);
    assert_eq!(r.sentences, None);
    assert_eq!(r.begin_of_a_sentence, None);
}

#[test]
fn empty_text_yields_nothing() {
    let r = SubtitleSection::extract_sentences("");
    assert_eq!(r.partial, None);
    assert_eq!(r.end_of_a_sentence, None);
    assert_eq!(r.sentences, None);
    assert_eq!(r.begin_of_a_sentence, None);
}

#[test]
fn expectation_string_partial() {
    let r = SentenceExtractionResult::from_string("@p mira a ver si encuentras algo");
    assert_eq!(r.partial, Some(String::from("mira a ver si encuentras algo")));
    assert_eq!(r.end_of_a_sentence, None);
    assert_eq!(r.sentences, None);
    assert_eq!(r.begin_of_a_sentence, None);
}

#[test]
fn expectation_string_all_fields() {
    let r = SentenceExtractionResult::from_string("@e de compras. @s Y, no sé. @b Pero");
    assert_eq!(r.end_of_a_sentence, Some(String::from("de compras.")));
    assert_eq!(r.sentences, Some(vec![String::from("Y, no sé.")]));
    assert_eq!(r.begin_of_a_sentence, Some(String::from("Pero")));
    assert_eq!(r.partial, None);
}

#[test]
fn expectation_string_two_sentences() {
    let r = SentenceExtractionResult::from_string("@s Uno. @s Dos.");
    assert_eq!(r.end_of_a_sentence, None);
    assert_eq!(r.sentences, Some(vec![String::from("Uno."), String::from("Dos.")]));
    assert_eq!(r.begin_of_a_sentence, None);
    assert_eq!(r.partial, None);
}

#[test]
fn expectation_string_ending_only() {
    let r = SentenceExtractionResult::from_string("@e y se fue.");
    assert_eq!(r.end_of_a_sentence, Some(String::from("y se fue.")));
    assert_eq!(r.sentences, None);
    assert_eq!(r.begin_of_a_sentence, None);
    assert_eq!(r.partial, None);
}

#[test]
fn expectation_matches_classifier() {
    let classified = SubtitleSection::extract_sentences("de compras. Y, no sé, mira a ver si encuentras algo.");
    let expected = SentenceExtractionResult::from_string("@e de compras. @s Y, no sé, mira a ver si encuentras algo.");
    assert_eq!(classified, expected);
}
