//! Repair of improbable wording.
use meetily::diarization::{SpeakerTurn, WordSpan};
use meetily::repair_session::{Outcome, RepairAction, RepairSession};
use meetily::transcript_repair::{
    accept_repair, braced_part, build_prompt, is_flagged, make_sentence, max_reply_tokens,
    parse_text_reply, sentences_of, tidied, word_list, RepairStats, MAX_REPAIRS,
};
use meetily::word_edits::word_edit_ops;

fn ppb(prob: f64) -> u32 {
    (prob * 1e9).round() as u32
}

fn tok(text: &str, prob: f64) -> WordSpan {
    WordSpan { text: text.to_string(), start_ns: 0, end_ns: 0, prob_ppb: ppb(prob) }
}

fn turn(words: Vec<WordSpan>) -> SpeakerTurn {
    SpeakerTurn {
        text: words.iter().map(|w| w.text.as_str()).collect(),
        start_ns: 0,
        end_ns: 0,
        speaker: Some(0),
        words,
    }
}

fn said(text: &str, prob: f64) -> SpeakerTurn {
    turn(
        text.split(' ')
            .enumerate()
            .map(|(i, w)| tok(&if i == 0 { w.to_string() } else { format!(" {}", w) }, prob))
            .collect(),
    )
}

#[test]
fn sentences_split_at_punctuation_with_probs() {
    let t = turn(vec![
        tok("Have", 0.9),
        tok(" you", 0.95),
        tok(" been?", 0.9),
        tok(" I", 0.9),
        tok(" was", 0.3),
        tok(" there.", 0.9),
    ]);
    let sents = sentences_of(&t);
    assert_eq!(sents.len(), 2);
    assert_eq!(sents[0].text, "Have you been?");
    assert_eq!(sents[1].text, "I was there.");
    assert_eq!(sents[1].min_ppb, ppb(0.3));
    assert!(is_flagged(&sents[1]));
    assert!(!is_flagged(&sents[0]));
}

#[test]
fn multi_token_word_takes_min_token_prob() {
    let t = turn(vec![tok("hel", 0.9), tok("lo", 0.2), tok(" you", 0.9), tok(" two.", 0.9)]);
    let words = word_list(&t);
    assert_eq!(words[0].0, "hello");
    assert_eq!(words[0].1, ppb(0.2));
}

#[test]
fn short_and_long_sentences_are_not_flagged() {
    let short = make_sentence(vec![("Да.".into(), ppb(0.1))]);
    assert!(!is_flagged(&short));
    let long_words: Vec<(String, u32)> = (0..50).map(|i| (format!("w{}", i), ppb(0.5))).collect();
    assert!(!is_flagged(&make_sentence(long_words)));
}

#[test]
fn edit_ops_counts_word_changes() {
    let a = ["I", "was", "there."];
    assert_eq!(word_edit_ops(&a, &["I", "was", "there."]), 0);
    assert_eq!(word_edit_ops(&a, &["I", "went", "there."]), 1);
    assert_eq!(word_edit_ops(&a, &["We", "went", "home."]), 3);
}

#[test]
fn repair_guard_rejects_paraphrase_and_accepts_patch() {
    let orig = "I think we should use the caching lair here.";
    assert!(accept_repair(orig, "I think we should use the caching layer here."));
    assert!(!accept_repair(orig, orig));
    assert!(!accept_repair(orig, "Let's add a cache layer at this point instead."));
    assert!(!accept_repair(orig, ""));
}

#[test]
fn parse_reply_tolerates_noise() {
    assert_eq!(
        parse_text_reply("{\"text\": \"Fixed sentence.\"}").as_deref(),
        Some("Fixed sentence.")
    );
    assert_eq!(parse_text_reply("Sure! {\"text\":\"Ok.\"} done").as_deref(), Some("Ok."));
    assert_eq!(parse_text_reply("no json"), None);
}

#[test]
fn edit_distance_is_a_metric_on_word_lists() {
    let lists: Vec<Vec<&str>> = vec![
        vec![],
        vec!["a"],
        vec!["a", "b"],
        vec!["b", "a"],
        vec!["a", "x", "b"],
        vec!["c", "d", "e", "f"],
    ];
    assert_eq!(word_edit_ops(&lists[0], &lists[5]), 4);
    assert_eq!(word_edit_ops(&lists[2], &lists[4]), 1);
    assert_eq!(word_edit_ops(&lists[2], &lists[3]), 2);
    for x in &lists {
        assert_eq!(word_edit_ops(x, x), 0);
        for y in &lists {
            assert_eq!(word_edit_ops(x, y), word_edit_ops(y, x));
            assert!(word_edit_ops(x, y) <= x.len().max(y.len()));
            for z in &lists {
                assert!(word_edit_ops(x, z) <= word_edit_ops(x, y) + word_edit_ops(y, z));
            }
        }
    }
}

#[test]
fn sentence_probabilities_add_up() {
    let s = make_sentence(vec![("a".into(), 300), ("b".into(), 100), ("c.".into(), 200)]);
    assert_eq!((s.text.as_str(), s.min_ppb, s.sum_ppb, s.word_count), ("a b c.", 100, 600, 3));
    let low_mean = make_sentence(vec![
        ("a".into(), ppb(0.6)),
        ("b".into(), ppb(0.7)),
        ("c.".into(), ppb(0.75)),
    ]);
    assert!(is_flagged(&low_mean));
    let fine = make_sentence(vec![
        ("a".into(), ppb(0.7)),
        ("b".into(), ppb(0.7)),
        ("c.".into(), ppb(0.7)),
    ]);
    assert!(!is_flagged(&fine));
}

#[test]
fn prompts_and_replies() {
    let p = build_prompt("", "It is here.", "And after.");
    assert!(!p.contains("Before:"));
    assert!(p.contains("Sentence: \"It is here.\"\nAfter: \"And after.\"\n"));
    assert!(p.ends_with("Reply with only JSON: {\"text\": \"<sentence>\"}"));
    assert_eq!(max_reply_tokens(3), 36);
    assert_eq!(max_reply_tokens(33), 156);
    assert_eq!(max_reply_tokens(34), 160);
    assert_eq!(max_reply_tokens(1000), 160);
    assert_eq!(braced_part("a {b} c}"), Some("{b} c}".to_string()));
    assert_eq!(braced_part("} {"), None);
    assert_eq!(tidied(Some("  x  ".to_string())), Some("x".to_string()));
    assert_eq!(tidied(Some("   ".to_string())), Some(String::new()));
    assert_eq!(tidied(None), None);
    assert_eq!(parse_text_reply("{\"text\": 5}"), None);
    assert_eq!(parse_text_reply("{\"text\": \"  \"}").as_deref(), Some(""));
}

#[test]
fn nothing_flagged_is_idle() {
    let (session, action) = RepairSession::start(vec![said("All is quite clear.", 0.95)]);
    assert!(matches!(action, RepairAction::Idle));
    assert_eq!(session.stats(), RepairStats::default());
}

#[test]
fn a_session_repairs_the_flagged_sentence_only() {
    let turns = vec![
        said("This was quite fine.", 0.95),
        said("We use the caching lair here.", 0.4),
        said("And so it went.", 0.9),
    ];
    let (mut session, action) = RepairSession::start(turns);
    assert!(matches!(action, RepairAction::Check));
    match session.checked(false) {
        RepairAction::Ask { prompt, max_tokens, done, total } => {
            assert!(prompt.contains("Before: \"This was quite fine.\""));
            assert!(prompt.contains("Sentence: \"We use the caching lair here.\""));
            assert!(prompt.contains("After: \"And so it went.\""));
            assert_eq!((max_tokens, done, total), (48, 0, 1));
        }
        other => panic!("{:?}", other),
    }
    let reply = "{\"text\": \"We use the caching layer here.\"}".to_string();
    assert!(matches!(session.replied(Some(reply)), RepairAction::Finished { total: 1 }));
    let stats = session.stats();
    assert_eq!(stats, RepairStats { flagged: 1, queried: 1, repaired: 1, failures: 0 });
    let texts: Vec<String> = session.into_turns().iter().map(|t| t.text.trim().to_string()).collect();
    assert_eq!(
        texts,
        vec!["This was quite fine.", "We use the caching layer here.", "And so it went."]
    );
}

#[test]
fn refused_and_failed_replies_change_nothing() {
    let turns = || vec![said("We use the caching lair here.", 0.4)];
    let (mut s, _) = RepairSession::start(turns());
    s.checked(false);
    s.settled(Outcome::Offer("Something else entirely was meant by that.".to_string()));
    assert_eq!(s.stats(), RepairStats { flagged: 1, queried: 1, repaired: 0, failures: 0 });
    assert_eq!(s.into_turns()[0].text, "We use the caching lair here.");

    let (mut s, _) = RepairSession::start(turns());
    s.checked(false);
    s.settled(Outcome::Failed);
    assert_eq!(s.stats().failures, 1);
    assert_eq!(s.into_turns()[0].text, "We use the caching lair here.");

    let (mut s, _) = RepairSession::start(turns());
    s.checked(false);
    s.settled(Outcome::Unreadable);
    assert_eq!(s.stats().repaired, 0);
    assert_eq!(s.into_turns()[0].text, "We use the caching lair here.");
}

#[test]
fn a_stopped_session_asks_no_more() {
    let (mut s, _) = RepairSession::start(vec![
        said("One two three four.", 0.4),
        said("Five six seven eight.", 0.3),
    ]);
    assert!(matches!(s.checked(true), RepairAction::Finished { total: 2 }));
    assert_eq!(s.stats().queried, 0);
    assert_eq!(s.stats().flagged, 2);
}

#[test]
fn the_worst_sentences_are_asked_about_up_to_the_cap() {
    let turns: Vec<SpeakerTurn> = (0..20)
        .map(|k| said(&format!("Sentence number {} here.", k), 0.6 - k as f64 * 0.01))
        .collect();
    let (mut s, _) = RepairSession::start(turns);
    let mut asked = Vec::new();
    let mut action = s.checked(false);
    while let RepairAction::Ask { prompt, .. } = action {
        let from = prompt.find("Sentence: \"Sentence number ").unwrap() + 27;
        asked.push(prompt[from..].split(' ').next().unwrap().parse::<usize>().unwrap());
        action = match s.settled(Outcome::Unreadable) {
            RepairAction::Check => s.checked(false),
            other => other,
        };
    }
    assert_eq!(asked.len(), MAX_REPAIRS);
    let mut sorted = asked.clone();
    sorted.sort();
    assert_eq!(sorted, (5..20).collect::<Vec<usize>>());
}
