//! Scoring labelled boundaries.
use meetily::boundary_eval::{
    chosen_shift, expected_shift, generated_text, question, strip_ellipsis, turn_from_text, Case,
    Question, Tally,
};

fn case(left: &str, right: &str, verdict: &str, cut: &str) -> Case {
    Case {
        case_no: 1,
        meeting_id: "meeting-0123456789".to_string(),
        left_tail: left.to_string(),
        right_head: right.to_string(),
        verdict: verdict.to_string(),
        correct_cut_after: cut.to_string(),
    }
}

fn strings(words: &[&str]) -> Vec<String> {
    words.iter().map(|w| w.to_string()).collect()
}

#[test]
fn ellipses_come_off_both_ends() {
    assert_eq!(strip_ellipsis("  …… so, we went…  "), "so, we went");
    assert_eq!(strip_ellipsis("a … b"), "a … b");
    assert_eq!(strip_ellipsis("…"), "");
    assert_eq!(strip_ellipsis("… …x"), "…x");
}

#[test]
fn turns_from_text_have_one_token_per_word() {
    let t = turn_from_text("so  we\twent", 1, 1_000_000_000);
    let texts: Vec<&str> = t.words.iter().map(|w| w.text.as_str()).collect();
    assert_eq!(texts, vec!["so", " we", " went"]);
    assert_eq!(t.text, "so we went");
    assert_eq!(t.start_ns, 1_000_000_000);
    assert_eq!(t.end_ns, 1_900_000_000);
    assert_eq!(t.words[1].start_ns, 1_300_000_000);
    assert_eq!(t.words[1].prob_ppb, 1_000_000_000);
    assert_eq!(t.speaker, Some(1));
    let empty = turn_from_text("  ", 0, 5);
    assert_eq!((empty.start_ns, empty.end_ns), (5, 0));
}

#[test]
fn expected_shift_ends_on_the_labelled_word() {
    let l = strings(&["What", "do", "you", "do", "them?", "Are"]);
    let r = strings(&["they", "moving", "they"]);
    assert_eq!(expected_shift("ok", &l, &r, "anything"), Some(0));
    assert_eq!(expected_shift("wrong", &l, &r, " them? "), Some(-1));
    assert_eq!(expected_shift("wrong", &l, &r, "do"), Some(-2));
    assert_eq!(expected_shift("wrong", &l, &r, "Are"), Some(0));
    assert_eq!(expected_shift("wrong", &l, &r, "they"), Some(1));
    assert_eq!(expected_shift("wrong", &l, &r, "absent"), None);
}

#[test]
fn cases_become_questions() {
    let l = "…What do you call them? Are";
    let r = "they moving along the street?…";
    assert!(matches!(question(&case(l, r, "skip", ""), ""), Question::Skipped));
    assert!(matches!(question(&case(l, r, "wrong", ""), ""), Question::MergeSkipped));
    assert!(matches!(question(&case(l, r, "wrong", "absent"), ""), Question::CutNotFound));
    assert!(matches!(question(&case("Yes.", "No.", "ok", ""), ""), Question::Skipped));
    match question(&case(l, r, "wrong", "the"), "") {
        Question::Unreachable { expected, shifts } => {
            assert_eq!(expected, 4);
            assert_eq!(shifts, vec![-2, -1, 0, 1, 2]);
        }
        other => panic!("{:?}", other),
    }
    match question(&case(l, r, "wrong", "them?"), "blind") {
        Question::Ask { prompt, shifts, expected } => {
            assert_eq!(expected, -1);
            assert_eq!(shifts, vec![-2, -1, 0, 1, 2]);
            assert!(prompt.contains("Option 2:\nA: \"What do you call them?\""));
        }
        other => panic!("{:?}", other),
    }
}

#[test]
fn replies_choose_offered_shifts() {
    let shifts = vec![-1, 0, 1];
    assert_eq!(chosen_shift("{\"cut\": 1}", &shifts), Some(-1));
    assert_eq!(chosen_shift("{\"cut\": 3}", &shifts), Some(1));
    assert_eq!(chosen_shift("{\"cut\": 0}", &shifts), None);
    assert_eq!(chosen_shift("{\"cut\": 4}", &shifts), None);
    assert_eq!(chosen_shift("none", &shifts), None);
}

#[test]
fn tally_counts_each_case_once() {
    let mut t = Tally::default();
    assert!(!t.note_question(&Question::Skipped));
    assert!(!t.note_question(&Question::MergeSkipped));
    assert!(!t.note_question(&Question::CutNotFound));
    assert!(!t.note_question(&Question::Unreachable { expected: 4, shifts: vec![0, 1] }));
    assert!(t.note_question(&Question::Ask { prompt: "?".to_string(), shifts: vec![0, 1], expected: 1 }));
    assert_eq!(t.note_reply("{\"cut\": 2}", &[0, 1], 1), Some(1));
    assert_eq!(t.note_reply("{\"cut\": 1}", &[0, 1], 1), Some(0));
    assert_eq!(t.note_reply("", &[0, 1], 1), None);
    assert_eq!(
        t,
        Tally { correct: 1, wrong: 2, unreachable: 1, merge_skipped: 1, skipped: 2 }
    );
}

#[test]
fn the_answer_is_the_text_of_the_line() {
    let line = "{\"type\":\"response\",\"text\":\"{\\\"cut\\\": 2}\"}\n";
    assert_eq!(generated_text(line), Some("{\"cut\": 2}".to_string()));
    assert_eq!(generated_text("{\"text\": 2}"), None);
    assert_eq!(generated_text("{\"error\": \"no model\"}"), None);
    assert_eq!(generated_text("[\"text\"]"), None);
    assert_eq!(generated_text(""), None);
}
