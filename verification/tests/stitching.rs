use tv_language_trainer::subtitle::Subtitle;
use tv_language_trainer::subtitle::SubtitleSection;

fn section(id: u64, from_ms: u64, to_ms: u64, text: &str) -> SubtitleSection {
    SubtitleSection {
        id,
        from: from_ms,
        to: to_ms,
        time_index: from_ms as u128,
        text: String::from(text),
    }
}

#[test]
fn fragment_stitched_across_two_records() {
    let sections = vec![
        section(1, 10000, 11000, "bien. Y me han pedido ellos"),
        section(2, 12500, 13500, "de compras."),
    ];
    let (index, anomalies) = Subtitle::extract_sentences_from_sections(&sections);
    assert_eq!(anomalies.len(), 0);
    let bucket = index.get(&10).expect("second 10 should hold the sentence");
    assert_eq!(bucket.len(), 1);
    assert_eq!(bucket[0].time_index, 10000);
    assert_eq!(
        bucket[0].sentence,
        String::from("Y me han pedido ellos de compras.")
    );
    assert!(index.get(&12).is_none());
}

#[test]
fn partial_records_accrete_until_resolved() {
    let sections = vec![
        section(1, 1000, 2000, "bien. Y me han"),
        section(2, 3000, 4000, "pedido ellos"),
        section(3, 5000, 6000, "de compras."),
    ];
    let (index, anomalies) = Subtitle::extract_sentences_from_sections(&sections);
    assert_eq!(anomalies.len(), 0);
    let bucket = index.get(&1).expect("second 1 should hold the sentence");
    assert_eq!(bucket.len(), 1);
    assert_eq!(bucket[0].time_index, 1000);
    assert_eq!(
        bucket[0].sentence,
        String::from("Y me han pedido ellos de compras.")
    );
}

#[test]
fn own_sentences_carry_their_record_time() {
    let sections = vec![
        section(1, 2000, 3000, "Hola. Adiós."),
        section(2, 4000, 5000, "Buenos días."),
    ];
    let (index, anomalies) = Subtitle::extract_sentences_from_sections(&sections);
    assert_eq!(anomalies.len(), 0);
    let b2 = index.get(&2).expect("second 2");
    assert_eq!(b2.len(), 2);
    assert_eq!(b2[0].sentence, String::from("Hola."));
    assert_eq!(b2[1].sentence, String::from("Adiós."));
    assert_eq!(b2[0].time_index, 2000);
    let b4 = index.get(&4).expect("second 4");
    assert_eq!(b4.len(), 1);
    assert_eq!(b4[0].sentence, String::from("Buenos días."));
}

#[test]
fn resolved_fragment_precedes_own_sentences() {
    let sections = vec![
        section(1, 7000, 7500, "bien. Y me han pedido ellos"),
        section(2, 7600, 8000, "de compras. Vale."),
    ];
    let (index, anomalies) = Subtitle::extract_sentences_from_sections(&sections);
    assert_eq!(anomalies.len(), 0);
    let b7 = index.get(&7).expect("second 7");
    assert_eq!(b7.len(), 2);
    assert_eq!(
        b7[0].sentence,
        String::from("Y me han pedido ellos de compras.")
    );
    assert_eq!(b7[0].time_index, 7000);
    assert_eq!(b7[1].sentence, String::from("Vale."));
    assert_eq!(b7[1].time_index, 7600);
}

#[test]
fn open_fragment_at_end_of_stream_is_emitted() {
    let sections = vec![section(1, 9000, 9500, "bien. Y me han pedido ellos")];
    let (index, anomalies) = Subtitle::extract_sentences_from_sections(&sections);
    let b9 = index.get(&9).expect("second 9");
    assert_eq!(b9.len(), 1);
    assert_eq!(b9[0].sentence, String::from("Y me han pedido ellos"));
    assert_eq!(b9[0].time_index, 9000);
    assert_eq!(anomalies.len(), 1);
    assert_eq!(anomalies[0].time_index, 9000);
    assert_eq!(anomalies[0].sentence, String::from("Y me han pedido ellos"));
}

#[test]
fn unresolved_fragment_is_emitted_as_it_stands() {
    let sections = vec![
        section(1, 1000, 1500, "bien. Y me han pedido ellos"),
        section(2, 2000, 2500, "Vale."),
    ];
    let (index, anomalies) = Subtitle::extract_sentences_from_sections(&sections);
    let b1 = index.get(&1).expect("second 1");
    assert_eq!(b1.len(), 1);
    assert_eq!(b1[0].sentence, String::from("Y me han pedido ellos"));
    let b2 = index.get(&2).expect("second 2");
    assert_eq!(b2[0].sentence, String::from("Vale."));
    assert_eq!(anomalies.len(), 1);
    assert_eq!(anomalies[0].time_index, 1000);
    assert_eq!(anomalies[0].sentence, String::from("Y me han pedido ellos"));
}

#[test]
fn stitching_inserts_one_joining_space_per_extra_piece() {
    let sections = vec![
        section(1, 1000, 2000, "bien. Y me han"),
        section(2, 3000, 4000, "pedido ellos"),
        section(3, 5000, 6000, "de compras."),
    ];
    let (index, anomalies) = Subtitle::extract_sentences_from_sections(&sections);
    assert_eq!(anomalies.len(), 0);
    let emitted = &index.get(&1).expect("second 1")[0].sentence;
    let consumed = "Y me han".len() + "pedido ellos".len() + "de compras.".len();
    let pieces = 3;
    assert_eq!(emitted.len(), consumed + pieces - 1);
}

#[test]
fn empty_stream_yields_an_empty_index() {
    let sections: Vec<SubtitleSection> = vec![];
    let (index, anomalies) = Subtitle::extract_sentences_from_sections(&sections);
    assert_eq!(index.len(), 0);
    assert_eq!(anomalies.len(), 0);
}

#[test]
fn emission_times_never_decrease() {
    let sections = vec![
        section(1, 1000, 1400, "Hola."),
        section(2, 2000, 2400, "bien. Y me han pedido ellos"),
        section(3, 3000, 3400, "de compras. Vale."),
    ];
    let (index, anomalies) = Subtitle::extract_sentences_from_sections(&sections);
    assert_eq!(anomalies.len(), 0);
    let mut times: Vec<u128> = Vec::new();
    for k in [1u128, 2, 3] {
        if let Some(bucket) = index.get(&k) {
            for s in bucket {
                times.push(s.time_index);
            }
        }
    }
    let mut sorted = times.clone();
    sorted.sort();
    assert_eq!(times, sorted);
}
