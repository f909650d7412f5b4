use tv_language_trainer::toolbox::clean_content_string;
use tv_language_trainer::toolbox::extract_sentences;
use tv_language_trainer::toolbox::get_text;
use tv_language_trainer::toolbox::get_times;
use tv_language_trainer::toolbox::special_language_replacements;

#[test]
fn clean_strips_markup_in_order() {
    let cleaned = clean_content_string(
        "<i>Hola</i> <font color=\"red\">mundo</font> (ruido) \"x\" a-b",
    );
    assert_eq!(cleaned, String::from("Hola mundo  x ab"));
}

#[test]
fn clean_leaves_plain_text_alone() {
    assert_eq!(
        clean_content_string("Pues que si estaba bien."),
        String::from("Pues que si estaba bien.")
    );
}

#[test]
fn clean_keeps_long_parentheticals() {
    let text = "(una acotación demasiado larga para ser eliminada aquí) sigue";
    assert_eq!(clean_content_string(text), String::from(text));
}

#[test]
fn replacements_drop_interrogative_clause_and_mark_pause() {
    assert_eq!(
        special_language_replacements("¿Qué tal?, muy bien... gracias"),
        String::from("muy bien -  gracias")
    );
}

#[test]
fn replacements_touch_only_the_first_ellipsis() {
    assert_eq!(
        special_language_replacements("a...b...c"),
        String::from("a - b...c")
    );
}

#[test]
fn replacements_trim_the_text() {
    assert_eq!(
        special_language_replacements("  hola  "),
        String::from("hola")
    );
}

#[test]
fn get_text_joins_up_to_three_lines() {
    assert_eq!(get_text(vec![]), None);
    assert_eq!(get_text(vec![" a "]), Some(String::from("a")));
    assert_eq!(get_text(vec![" a ", " b"]), Some(String::from("a b")));
    assert_eq!(
        get_text(vec!["a", "b", "c"]),
        Some(String::from("a b c"))
    );
    assert_eq!(
        get_text(vec!["a", "b", "c", "ignored"]),
        Some(String::from("a b c"))
    );
}

#[test]
fn get_times_reads_both_stamps() {
    let r = get_times("00:01:02.345 --> 00:01:03.456");
    assert_eq!(r, Some((62345, 63456)));
}

#[test]
fn get_times_finds_the_range_inside_a_line() {
    let r = get_times("x 01:00:00.000 --> 01:00:01.500 y");
    assert_eq!(r, Some((3600000, 3601500)));
}

#[test]
fn get_times_rejects_a_line_without_a_range() {
    assert_eq!(get_times("no hay tiempo aquí"), None);
    assert_eq!(get_times("00:00:01 --> 00:00:02"), None);
}

#[test]
fn normalization_is_idempotent_on_pattern_free_results() {
    let raw = " <i>Hola mundo.</i> ";
    let once = special_language_replacements(clean_content_string(raw).trim());
    assert_eq!(once, String::from("Hola mundo."));
    let twice = special_language_replacements(clean_content_string(&once).trim());
    assert_eq!(twice, once);
}

#[test]
fn normalization_is_not_idempotent_on_a_fresh_pause_marker() {
    let raw = "a...b";
    let once = special_language_replacements(clean_content_string(raw).trim());
    assert_eq!(once, String::from("a - b"));
    let twice = special_language_replacements(clean_content_string(&once).trim());
    assert_eq!(twice, String::from("a  b"));
}

#[test]
fn plain_extractor_needs_capital_leads() {
    let r = extract_sentences(String::from("Hola. ¿Qué tal? adiós"));
    assert_eq!(r, vec![String::from("Hola."), String::from("¿Qué tal?")]);
}

#[test]
fn plain_extractor_skips_digit_leads() {
    let r = extract_sentences(String::from("9 vidas tiene el gato."));
    assert_eq!(r, Vec::<String>::new());
}
