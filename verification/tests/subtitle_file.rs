use tv_language_trainer::subtitle::Subtitle;
use tv_language_trainer::subtitle::SubtitleError;
use tv_language_trainer::subtitle::SubtitleSection;

fn sample_content() -> String {
    String::from(
        "1\r\n00:00:10.000 --> 00:00:11.000\r\nbien. Y me han pedido ellos\r\n\r\n2\r\n00:00:12.500 --> 00:00:13.500\r\nde compras.\r\n\r\n",
    )
}

#[test]
fn from_content_builds_sections_and_index() {
    let (sub, anomalies) = Subtitle::from_content("Papel01", sample_content().as_str()).expect("parses");
    assert_eq!(anomalies.len(), 0);
    assert_eq!(sub.name, String::from("Papel01"));
    assert_eq!(sub.sections.len(), 2);
    assert_eq!(sub.sections[0].id, 1);
    assert_eq!(sub.sections[0].from, 10000);
    assert_eq!(sub.sections[0].to, 11000);
    assert_eq!(sub.sections[0].time_index, 10000);
    assert_eq!(sub.sections[0].text, String::from("bien. Y me han pedido ellos"));
    assert_eq!(sub.sections[1].id, 2);
    assert_eq!(sub.sections[1].from, 12500);
    let bucket = sub.lookup(10).expect("second 10 holds the stitched sentence");
    assert_eq!(bucket.len(), 1);
    assert_eq!(bucket[0].time_index, 10000);
    assert_eq!(
        bucket[0].sentence,
        String::from("Y me han pedido ellos de compras.")
    );
    assert!(sub.lookup(12).is_none());
}

#[test]
fn from_content_strips_markup_from_the_text() {
    let content = "1\r\n00:00:01.000 --> 00:00:02.000\r\n<i>Hola.</i>\r\n\r\n";
    let (sub, _) = Subtitle::from_content("x", content).expect("parses");
    assert_eq!(sub.sections.len(), 1);
    assert_eq!(sub.sections[0].text, String::from("Hola."));
}

#[test]
fn from_content_drops_a_record_whose_text_vanishes() {
    let content = "1\r\n00:00:01.000 --> 00:00:02.000\r\n-\r\n\r\n2\r\n00:00:03.000 --> 00:00:04.000\r\nHola.\r\n\r\n";
    let (sub, _) = Subtitle::from_content("x", content).expect("parses");
    assert_eq!(sub.sections.len(), 1);
    assert_eq!(sub.sections[0].id, 2);
}

#[test]
fn from_content_without_markers_is_empty() {
    let (sub, anomalies) = Subtitle::from_content("x", "nothing here").expect("parses");
    assert_eq!(anomalies.len(), 0);
    assert_eq!(sub.sections.len(), 0);
    assert_eq!(sub.sentences.len(), 0);
}

#[test]
fn from_content_reports_an_unresolved_fragment() {
    let content = "1\r\n00:00:10.000 --> 00:00:11.000\r\nbien. Y me han pedido ellos\r\n\r\n2\r\n00:00:12.500 --> 00:00:13.500\r\nVale.\r\n\r\n";
    let (sub, anomalies) = Subtitle::from_content("x", content).expect("parses");
    assert_eq!(anomalies.len(), 1);
    assert_eq!(anomalies[0].time_index, 10000);
    assert_eq!(anomalies[0].sentence, String::from("Y me han pedido ellos"));
    let bucket = sub.lookup(10).expect("second 10");
    assert_eq!(bucket[0].sentence, String::from("Y me han pedido ellos"));
}

#[test]
fn malformed_time_range_is_fatal() {
    let content = "1\r\nno time here\r\nHola.\r\n\r\n";
    let r = Subtitle::from_content("x", content);
    assert!(matches!(r, Err(SubtitleError::MalformedTimeRange)));
}

#[test]
fn section_from_string_reads_a_block() {
    let block = "12\r\n00:00:01.000 --> 00:00:02.250\r\nHola mundo.";
    let sec = SubtitleSection::from_string(block)
        .expect("well formed")
        .expect("has text");
    assert_eq!(sec.id, 12);
    assert_eq!(sec.from, 1000);
    assert_eq!(sec.to, 2250);
    assert_eq!(sec.time_index, 1000);
    assert_eq!(sec.text, String::from("Hola mundo."));
}

#[test]
fn section_from_string_rejects_a_bad_ordinal() {
    let block = "doce\r\n00:00:01.000 --> 00:00:02.250\r\nHola.";
    assert!(matches!(
        SubtitleSection::from_string(block),
        Err(SubtitleError::MalformedRecordId)
    ));
}

#[test]
fn section_from_string_rejects_a_bad_time_line() {
    let block = "12\r\nsin tiempo\r\nHola.";
    assert!(matches!(
        SubtitleSection::from_string(block),
        Err(SubtitleError::MalformedTimeRange)
    ));
}

#[test]
fn section_from_string_drops_an_empty_record() {
    let block = "12\r\n00:00:01.000 --> 00:00:02.250\r\n-";
    assert!(matches!(SubtitleSection::from_string(block), Ok(None)));
}

#[test]
fn section_new_starts_empty() {
    let sec = SubtitleSection::new();
    assert_eq!(sec.id, 0);
    assert_eq!(sec.from, 0);
    assert_eq!(sec.to, 0);
    assert_eq!(sec.time_index, 0);
    assert_eq!(sec.text, String::new());
}

#[test]
fn section_add_text_appends() {
    let mut sec = SubtitleSection::new();
    sec.add_text("Hola");
    sec.add_text(" mundo");
    assert_eq!(sec.text, String::from("Hola mundo"));
    assert_eq!(sec.to_string(), String::from("Hola mundo\n"));
}

#[test]
fn section_display_form() {
    let sec = SubtitleSection {
        id: 3,
        from: 12500,
        to: 13600,
        time_index: 12500,
        text: String::from("Hola"),
    };
    assert_eq!(sec.display_string(), String::from("3-12500\n12--13\nHola"));
}

#[test]
fn subtitle_new_and_display() {
    let sub = Subtitle::new(String::from("Serie"));
    assert_eq!(sub.name, String::from("Serie"));
    assert_eq!(sub.sections.len(), 0);
    assert_eq!(sub.to_string(), String::from("---------Serie---------\n"));
}

#[test]
fn subtitle_display_lists_sections() {
    let (sub, _) = Subtitle::from_content(
        "S",
        "1\r\n00:00:02.000 --> 00:00:03.000\r\nHola.\r\n\r\n",
    )
    .expect("parses");
    assert_eq!(
        sub.to_string(),
        String::from("---------S---------\n1-2000\n2--3\nHola.")
    );
}
