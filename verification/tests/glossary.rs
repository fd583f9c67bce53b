//! The self-learning vocabulary.
use meetily::glossary::{
    extraction_prompt, initial_prompt, keep_terms, learn, merge_terms, parse_terms, sample_rows,
    MAX_SAMPLE_CHARS, MAX_TERMS,
};

fn strings(words: &[&str]) -> Vec<String> {
    words.iter().map(|w| w.to_string()).collect()
}

#[test]
fn parses_terms_and_filters_sentences() {
    let terms = parse_terms(
        "{\"terms\": [\"Meetily\", \"Одиссея\", \"sherpa-onnx\", \
         \"this is a whole sentence not a term\", \"\"]}",
    );
    assert_eq!(terms, vec!["Meetily", "Одиссея", "sherpa-onnx"]);
}

#[test]
fn merge_dedupes_case_insensitively_and_caps() {
    let merged = merge_terms(
        vec!["Meetily".into(), "Kafka".into()],
        vec!["meetily".into(), "Grafana".into()],
    );
    assert_eq!(merged, vec!["Meetily", "Kafka", "Grafana"]);

    let many: Vec<String> = (0..45).map(|i| format!("t{}", i)).collect();
    let capped = merge_terms(many, vec!["newest".into()]);
    assert_eq!(capped.len(), MAX_TERMS);
    assert_eq!(capped.last().map(String::as_str), Some("newest"));
}

#[test]
fn sampling_caps_long_transcripts() {
    let rows: Vec<String> = (0..2000).map(|i| format!("row {} with some words", i)).collect();
    let sample = sample_rows(&rows);
    assert!(sample.len() <= MAX_SAMPLE_CHARS);
    assert!(sample.contains("row 0"));
}

#[test]
fn the_sample_counts_bytes_and_line_breaks() {
    assert_eq!(sample_rows(&strings(&["a", "b"])), "a\nb\n");
    let fits = "x".repeat(MAX_SAMPLE_CHARS - 1);
    assert_eq!(sample_rows(&[fits.clone()]).len(), MAX_SAMPLE_CHARS);
    let too_long = "x".repeat(MAX_SAMPLE_CHARS);
    assert_eq!(sample_rows(&[too_long]), "");
    let wide = "я".repeat(2000);
    assert_eq!(sample_rows(&[wide.clone(), wide]).len(), 4001);
}

#[test]
fn replies_without_terms_teach_nothing() {
    assert_eq!(parse_terms("no json"), Vec::<String>::new());
    assert_eq!(parse_terms("{\"terms\": \"one\"}"), Vec::<String>::new());
    assert_eq!(parse_terms("{\"terms\": [1]}"), Vec::<String>::new());
    assert_eq!(learn(strings(&["a"]), "{\"terms\": []}"), None);
    assert_eq!(
        learn(strings(&["a"]), "ok {\"terms\": [\" A \", \"b\"]}"),
        Some(strings(&["a", "b"]))
    );
}

#[test]
fn terms_are_short_and_trimmed() {
    assert_eq!(
        keep_terms(&strings(&["  two words ", "a b c d", "one two three", &"x".repeat(41)])),
        strings(&["two words", "one two three"])
    );
}

#[test]
fn prompts_of_the_glossary() {
    assert_eq!(initial_prompt(&[]), None);
    assert_eq!(initial_prompt(&strings(&["A", "B"])).as_deref(), Some("Glossary: A, B."));
    assert_eq!(extraction_prompt(&"x".repeat(399)), None);
    let p = extraction_prompt(&"x".repeat(400)).unwrap();
    assert!(p.contains(&"x".repeat(400)));
    assert!(p.ends_with("Reply with only JSON: {\"terms\": [\"...\"]}"));
}
